//! An adjacency-list graph store with node and edge identity and optional
//! typed payloads.
//!
//! A graph is created empty with a fixed directedness. Nodes are identified
//! by `usize` ids and carry an optional payload of type `V`; edges are
//! identified by an ordered pair of node ids and carry an optional payload of
//! type `E`. For an undirected graph the payload of an edge is stored once,
//! under the canonical key `(min, max)`, and both directions appear in
//! adjacency.
//!
//! The model of a graph is three maps: node id to optional payload, node id
//! to adjacency sequence, and canonical edge key to optional payload, plus
//! the directedness flag.

use crate::reach::{adj_step, adj_symmetric, adj_targets_in_dom};
use vstd::prelude::*;
use vstd::seq_lib::group_seq_properties;
use vstd::set_lib::group_set_properties;
use vstd::multiset::Multiset;
use vstd::std_specs::cmp::PartialEqSpec;

verus! {

/// The key under which an edge's payload is stored: the pair itself for a
/// directed graph, the ordered pair `(min, max)` for an undirected one.
pub open spec fn spec_canon(directed: bool, from: usize, to: usize) -> (usize, usize) {
    if directed || from <= to {
        (from, to)
    } else {
        (to, from)
    }
}

struct NodeEntry<V> {
    id: usize,
    payload: Option<V>,
    adj: Vec<usize>,
}

struct EdgeEntry<E> {
    from: usize,
    to: usize,
    payload: Option<E>,
}

/// An adjacency-list graph with optional node payloads of type `V` and
/// optional edge payloads of type `E`.
pub struct AdjListGraph<V, E> {
    nodes: Vec<NodeEntry<V>>,
    edges: Vec<EdgeEntry<E>>,
    directed: bool,
}

spec fn node_ids<V>(s: Seq<NodeEntry<V>>) -> Seq<usize> {
    s.map_values(|e: NodeEntry<V>| e.id)
}

spec fn edge_keys<E>(s: Seq<EdgeEntry<E>>) -> Seq<(usize, usize)> {
    s.map_values(|e: EdgeEntry<E>| (e.from, e.to))
}

spec fn has_node<V>(s: Seq<NodeEntry<V>>, k: usize) -> bool {
    exists|i: int| 0 <= i < s.len() && (#[trigger] s[i].id) == k
}

spec fn node_at<V>(s: Seq<NodeEntry<V>>, k: usize) -> int {
    choose|i: int| 0 <= i < s.len() && (#[trigger] s[i].id) == k
}

spec fn has_edge<E>(s: Seq<EdgeEntry<E>>, k: (usize, usize)) -> bool {
    exists|i: int| 0 <= i < s.len() && (#[trigger] edge_key_of(s[i])) == k
}

spec fn edge_at<E>(s: Seq<EdgeEntry<E>>, k: (usize, usize)) -> int {
    choose|i: int| 0 <= i < s.len() && (#[trigger] edge_key_of(s[i])) == k
}

spec fn edge_key_of<E>(e: EdgeEntry<E>) -> (usize, usize) {
    (e.from, e.to)
}

spec fn nodes_map<V>(s: Seq<NodeEntry<V>>) -> Map<usize, Option<V>> {
    Map::new(|k: usize| has_node(s, k), |k: usize| s[node_at(s, k)].payload)
}

spec fn adj_map<V>(s: Seq<NodeEntry<V>>) -> Map<usize, Seq<usize>> {
    Map::new(|k: usize| has_node(s, k), |k: usize| s[node_at(s, k)].adj@)
}

spec fn edges_map<E>(s: Seq<EdgeEntry<E>>) -> Map<(usize, usize), Option<E>> {
    Map::new(|k: (usize, usize)| has_edge(s, k), |k: (usize, usize)| s[edge_at(s, k)].payload)
}

spec fn wf_parts<V, E>(ns: Seq<NodeEntry<V>>, es: Seq<EdgeEntry<E>>, directed: bool) -> bool {
    &&& node_ids(ns).no_duplicates()
    &&& edge_keys(es).no_duplicates()
    &&& forall|j: int|
        0 <= j < es.len() ==> has_node(ns, (#[trigger] es[j]).from) && has_node(ns, es[j].to)
    &&& !directed ==> forall|j: int| 0 <= j < es.len() ==> (#[trigger] es[j]).from <= es[j].to
    &&& forall|i: int, j: int|
        0 <= i < ns.len() && 0 <= j < ns[i].adj@.len() ==> has_node(ns, #[trigger] ns[i].adj@[j])
    &&& forall|i: int, j: int|
        0 <= i < ns.len() && 0 <= j < ns[i].adj@.len() ==> has_edge(
            es,
            spec_canon(directed, ns[i].id, #[trigger] ns[i].adj@[j]),
        )
    &&& forall|j: int|
        0 <= j < es.len() ==> ns[node_at(ns, (#[trigger] es[j]).from)].adj@.contains(es[j].to)
    &&& !directed ==> forall|j: int|
        0 <= j < es.len() ==> ns[node_at(ns, (#[trigger] es[j]).to)].adj@.contains(es[j].from)
}

proof fn lemma_node_at<V>(s: Seq<NodeEntry<V>>, i: int)
    requires
        node_ids(s).no_duplicates(),
        0 <= i < s.len(),
    ensures
        has_node(s, s[i].id),
        node_at(s, s[i].id) == i,
{
    assert(has_node(s, s[i].id));
    let j = node_at(s, s[i].id);
    assert(node_ids(s)[i] == s[i].id);
    assert(node_ids(s)[j] == s[j].id);
}

proof fn lemma_edge_at<E>(s: Seq<EdgeEntry<E>>, i: int)
    requires
        edge_keys(s).no_duplicates(),
        0 <= i < s.len(),
    ensures
        has_edge(s, edge_key_of(s[i])),
        edge_at(s, edge_key_of(s[i])) == i,
{
    assert(has_edge(s, edge_key_of(s[i])));
    let j = edge_at(s, edge_key_of(s[i]));
    assert(edge_keys(s)[i] == edge_key_of(s[i]));
    assert(edge_keys(s)[j] == edge_key_of(s[j]));
}

impl<V, E> AdjListGraph<V, E> {
    /// Whether the graph is directed; fixed at construction.
    pub closed spec fn spec_directed(&self) -> bool {
        self.directed
    }

    /// The node-id to optional-payload map.
    pub closed spec fn spec_nodes(&self) -> Map<usize, Option<V>> {
        nodes_map(self.nodes@)
    }

    /// The node-id to adjacency-sequence map; same domain as `spec_nodes`.
    pub closed spec fn spec_adj(&self) -> Map<usize, Seq<usize>> {
        adj_map(self.nodes@)
    }

    /// The canonical-edge-key to optional-payload map.
    pub closed spec fn spec_edges(&self) -> Map<(usize, usize), Option<E>> {
        edges_map(self.edges@)
    }

    /// The canonical key for `(from, to)` in this graph.
    pub open spec fn edge_key(&self, from: usize, to: usize) -> (usize, usize) {
        spec_canon(self.spec_directed(), from, to)
    }

    /// The whole model as one value.
    pub open spec fn model(&self) -> GraphModel<V, E> {
        GraphModel {
            directed: self.spec_directed(),
            nodes: self.spec_nodes(),
            adj: self.spec_adj(),
            edges: self.spec_edges(),
        }
    }

    /// Well-formedness: distinct node ids and edge keys, every edge endpoint
    /// and adjacency target an existing node, canonical edge keys for
    /// undirected graphs, and adjacency entries and edge keys in mutual
    /// correspondence.
    pub closed spec fn wf(&self) -> bool {
        wf_parts(self.nodes@, self.edges@, self.directed)
    }

    /// Model-level consequences of well-formedness, for callers of the
    /// closed `wf`.
    pub proof fn lemma_wf(&self)
        requires
            self.wf(),
        ensures
            self.spec_adj().dom() =~= self.spec_nodes().dom(),
            self.spec_nodes().dom().finite(),
            self.spec_edges().dom().finite(),
            forall|u: usize, v: usize| #[trigger]
                adj_step(self.spec_adj(), u, v) ==> self.spec_nodes().dom().contains(v)
                    && self.spec_edges().dom().contains(self.edge_key(u, v)),
            forall|k: (usize, usize)| #[trigger]
                self.spec_edges().dom().contains(k) ==> self.spec_nodes().dom().contains(k.0)
                    && self.spec_nodes().dom().contains(k.1) && self.spec_adj()[k.0].contains(k.1),
            !self.spec_directed() ==> forall|k: (usize, usize)| #[trigger]
                self.spec_edges().dom().contains(k) ==> k.0 <= k.1 && self.spec_adj()[k.1].contains(
                    k.0,
                ),
    {
        let ns = self.nodes@;
        let es = self.edges@;
        lemma_maps_dom(ns, es);
        assert forall|u: usize, v: usize| #[trigger]
            adj_step(self.spec_adj(), u, v) implies self.spec_nodes().dom().contains(v)
                && self.spec_edges().dom().contains(self.edge_key(u, v)) by {
            let i = node_at(ns, u);
            let j = choose|j: int| 0 <= j < ns[i].adj@.len() && ns[i].adj@[j] == v;
            assert(has_node(ns, ns[i].adj@[j]));
            assert(has_edge(es, spec_canon(self.directed, ns[i].id, ns[i].adj@[j])));
        }
        assert forall|k: (usize, usize)| #[trigger]
            self.spec_edges().dom().contains(k) implies self.spec_nodes().dom().contains(k.0)
                && self.spec_nodes().dom().contains(k.1) && self.spec_adj()[k.0].contains(k.1) by {
            let j = edge_at(es, k);
            assert(has_node(ns, es[j].from) && has_node(ns, es[j].to));
            assert(ns[node_at(ns, es[j].from)].adj@.contains(es[j].to));
        }
        if !self.directed {
            assert forall|k: (usize, usize)| #[trigger]
                self.spec_edges().dom().contains(k) implies k.0 <= k.1
                    && self.spec_adj()[k.1].contains(k.0) by {
                let j = edge_at(es, k);
                assert(ns[node_at(ns, es[j].to)].adj@.contains(es[j].from));
            }
        }
    }

    /// In a well-formed undirected graph, adjacency is symmetric and every
    /// adjacency target is a node.
    pub proof fn lemma_undirected_symmetric(&self)
        requires
            self.wf(),
            !self.spec_directed(),
        ensures
            adj_symmetric(self.spec_adj()),
            adj_targets_in_dom(self.spec_adj()),
    {
        self.lemma_wf();
        assert forall|u: usize, v: usize| #[trigger]
            adj_step(self.spec_adj(), u, v) implies adj_step(self.spec_adj(), v, u)
            && self.spec_adj().dom().contains(v) by {
            let k = self.edge_key(u, v);
            assert(self.spec_edges().dom().contains(k));
            assert(self.spec_adj()[k.0].contains(k.1) && self.spec_adj()[k.1].contains(k.0));
            assert((k.0 == u && k.1 == v) || (k.0 == v && k.1 == u));
        }
    }

    /// The number of distinct nodes equals the length of the backing vector.
    proof fn lemma_counts(&self)
        requires
            self.wf(),
        ensures
            self.spec_nodes().dom().len() == self.nodes@.len(),
            self.spec_edges().dom().len() == self.edges@.len(),
            self.spec_nodes().dom().finite(),
            self.spec_edges().dom().finite(),
    {
        broadcast use group_seq_properties;
        broadcast use group_set_properties;
        broadcast use vstd::seq_lib::seq_to_set_is_finite;

        let ns = self.nodes@;
        let es = self.edges@;
        lemma_maps_dom(ns, es);
        assert(self.spec_nodes().dom() =~= node_ids(ns).to_set());
        assert(self.spec_edges().dom() =~= edge_keys(es).to_set());
        node_ids(ns).unique_seq_to_set();
        edge_keys(es).unique_seq_to_set();
    }
}

proof fn lemma_maps_dom<V, E>(ns: Seq<NodeEntry<V>>, es: Seq<EdgeEntry<E>>)
    ensures
        nodes_map(ns).dom() =~= node_ids(ns).to_set(),
        adj_map(ns).dom() =~= node_ids(ns).to_set(),
        edges_map(es).dom() =~= edge_keys(es).to_set(),
        nodes_map(ns).dom().finite(),
        adj_map(ns).dom().finite(),
        edges_map(es).dom().finite(),
{
    broadcast use vstd::seq_lib::seq_to_set_is_finite;

    assert forall|k: usize| has_node(ns, k) implies node_ids(ns).to_set().contains(k) by {
        let i = choose|i: int| 0 <= i < ns.len() && ns[i].id == k;
        assert(node_ids(ns)[i] == k);
        assert(node_ids(ns).contains(k));
    }
    assert forall|k: usize| node_ids(ns).to_set().contains(k) implies has_node(ns, k) by {
        let i = choose|i: int| 0 <= i < node_ids(ns).len() && node_ids(ns)[i] == k;
        assert(ns[i].id == k);
    }
    assert forall|k: (usize, usize)| has_edge(es, k) implies edge_keys(es).to_set().contains(
        k,
    ) by {
        let i = choose|i: int| 0 <= i < es.len() && edge_key_of(es[i]) == k;
        assert(edge_keys(es)[i] == k);
        assert(edge_keys(es).contains(k));
    }
    assert forall|k: (usize, usize)| edge_keys(es).to_set().contains(k) implies has_edge(
        es,
        k,
    ) by {
        let i = choose|i: int| 0 <= i < edge_keys(es).len() && edge_keys(es)[i] == k;
        assert(edge_key_of(es[i]) == k);
    }
}

/// `m` with `n` present: unchanged if `n` is a key, else extended with an
/// absent payload.
pub open spec fn ensure_node<V>(m: Map<usize, Option<V>>, n: usize) -> Map<usize, Option<V>> {
    if m.dom().contains(n) {
        m
    } else {
        m.insert(n, None)
    }
}

/// `m` with `n` present: unchanged if `n` is a key, else extended with an
/// empty adjacency sequence.
pub open spec fn ensure_adj(m: Map<usize, Seq<usize>>, n: usize) -> Map<usize, Seq<usize>> {
    if m.dom().contains(n) {
        m
    } else {
        m.insert(n, Seq::empty())
    }
}

proof fn lemma_ids_transfer<V>(ns1: Seq<NodeEntry<V>>, ns2: Seq<NodeEntry<V>>)
    requires
        ns1.len() == ns2.len(),
        forall|i: int| 0 <= i < ns1.len() ==> (#[trigger] ns1[i]).id == ns2[i].id,
        node_ids(ns1).no_duplicates(),
    ensures
        node_ids(ns2) =~= node_ids(ns1),
        node_ids(ns2).no_duplicates(),
        forall|k: usize| has_node(ns1, k) <==> has_node(ns2, k),
        forall|k: usize| has_node(ns1, k) ==> #[trigger] node_at(ns2, k) == node_at(ns1, k),
{
    assert forall|i: int| 0 <= i < ns1.len() implies node_ids(ns2)[i] == node_ids(ns1)[i] by {}
    assert forall|k: usize| has_node(ns1, k) implies has_node(ns2, k) by {
        let i = choose|i: int| 0 <= i < ns1.len() && ns1[i].id == k;
        assert(ns2[i].id == k);
    }
    assert forall|k: usize| has_node(ns2, k) implies has_node(ns1, k) by {
        let i = choose|i: int| 0 <= i < ns2.len() && ns2[i].id == k;
        assert(ns1[i].id == k);
    }
    assert forall|k: usize| has_node(ns1, k) implies #[trigger] node_at(ns2, k) == node_at(
        ns1,
        k,
    ) by {
        let i1 = node_at(ns1, k);
        let i2 = node_at(ns2, k);
        assert(ns1[i1].id == k && ns2[i2].id == k);
        assert(node_ids(ns1)[i1] == k && node_ids(ns1)[i2] == k);
    }
}

proof fn lemma_push_node_maps<V>(ns: Seq<NodeEntry<V>>, e: NodeEntry<V>)
    requires
        node_ids(ns).no_duplicates(),
        !has_node(ns, e.id),
    ensures
        node_ids(ns.push(e)) =~= node_ids(ns).push(e.id),
        node_ids(ns.push(e)).no_duplicates(),
        forall|k: usize| has_node(ns.push(e), k) <==> has_node(ns, k) || k == e.id,
        node_at(ns.push(e), e.id) == ns.len(),
        forall|k: usize|
            has_node(ns, k) && k != e.id ==> #[trigger] node_at(ns.push(e), k) == node_at(ns, k),
        nodes_map(ns.push(e)) == nodes_map(ns).insert(e.id, e.payload),
        adj_map(ns.push(e)) == adj_map(ns).insert(e.id, e.adj@),
{
    let ns2 = ns.push(e);
    assert forall|i: int| 0 <= i < ns2.len() implies node_ids(ns2)[i] == node_ids(ns).push(
        e.id,
    )[i] by {}
    assert(node_ids(ns2) =~= node_ids(ns).push(e.id));
    assert forall|k: usize| has_node(ns, k) implies has_node(ns2, k) by {
        let i = choose|i: int| 0 <= i < ns.len() && ns[i].id == k;
        assert(ns2[i].id == k);
    }
    assert(ns2[ns.len() as int].id == e.id);
    assert forall|k: usize| has_node(ns2, k) implies has_node(ns, k) || k == e.id by {
        let i = choose|i: int| 0 <= i < ns2.len() && ns2[i].id == k;
        if i < ns.len() {
            assert(ns[i].id == k);
        }
    }
    assert forall|k: usize| has_node(ns, k) && k != e.id implies #[trigger] node_at(ns2, k)
        == node_at(ns, k) by {
        let i1 = node_at(ns, k);
        assert(ns2[i1].id == k);
        let i2 = node_at(ns2, k);
        assert(i2 < ns.len() ==> node_ids(ns)[i1] == node_ids(ns)[i2]);
    }
    let i2 = node_at(ns2, e.id);
    if i2 < ns.len() {
        assert(ns[i2].id == e.id);
        assert(false);
    }
    assert(nodes_map(ns2) =~= nodes_map(ns).insert(e.id, e.payload));
    assert(adj_map(ns2) =~= adj_map(ns).insert(e.id, e.adj@));
}

proof fn lemma_update_node_maps<V>(ns: Seq<NodeEntry<V>>, i: int, e: NodeEntry<V>)
    requires
        node_ids(ns).no_duplicates(),
        0 <= i < ns.len(),
        e.id == ns[i].id,
    ensures
        node_ids(ns.update(i, e)) =~= node_ids(ns),
        node_ids(ns.update(i, e)).no_duplicates(),
        forall|k: usize| has_node(ns.update(i, e), k) <==> has_node(ns, k),
        forall|k: usize|
            has_node(ns, k) ==> #[trigger] node_at(ns.update(i, e), k) == node_at(ns, k),
        node_at(ns, e.id) == i,
        nodes_map(ns.update(i, e)) == nodes_map(ns).insert(e.id, e.payload),
        adj_map(ns.update(i, e)) == adj_map(ns).insert(e.id, e.adj@),
{
    let ns2 = ns.update(i, e);
    lemma_ids_transfer(ns, ns2);
    lemma_node_at(ns, i);
    assert(nodes_map(ns2) =~= nodes_map(ns).insert(e.id, e.payload));
    assert(adj_map(ns2) =~= adj_map(ns).insert(e.id, e.adj@));
}

proof fn lemma_push_edge_maps<E>(es: Seq<EdgeEntry<E>>, e: EdgeEntry<E>)
    requires
        edge_keys(es).no_duplicates(),
        !has_edge(es, edge_key_of(e)),
    ensures
        edge_keys(es.push(e)) =~= edge_keys(es).push(edge_key_of(e)),
        edge_keys(es.push(e)).no_duplicates(),
        forall|k: (usize, usize)| has_edge(es.push(e), k) <==> has_edge(es, k) || k == edge_key_of(e),
        edges_map(es.push(e)) == edges_map(es).insert(edge_key_of(e), e.payload),
{
    let es2 = es.push(e);
    assert forall|i: int| 0 <= i < es2.len() implies edge_keys(es2)[i] == edge_keys(es).push(
        edge_key_of(e),
    )[i] by {}
    assert(edge_keys(es2) =~= edge_keys(es).push(edge_key_of(e)));
    assert forall|i: int| 0 <= i < es.len() implies edge_keys(es)[i] != edge_key_of(e) by {
        assert(edge_key_of(es[i]) == edge_keys(es)[i]);
    }
    assert forall|k: (usize, usize)| has_edge(es, k) implies has_edge(es2, k) by {
        let i = choose|i: int| 0 <= i < es.len() && edge_key_of(es[i]) == k;
        assert(edge_key_of(es2[i]) == k);
    }
    assert(edge_key_of(es2[es.len() as int]) == edge_key_of(e));
    assert forall|k: (usize, usize)| has_edge(es2, k) implies has_edge(es, k) || k == edge_key_of(
        e,
    ) by {
        let i = choose|i: int| 0 <= i < es2.len() && edge_key_of(es2[i]) == k;
        if i < es.len() {
            assert(edge_key_of(es[i]) == k);
        }
    }
    assert forall|k: (usize, usize)| #[trigger] edges_map(es2).dom().contains(k) implies edges_map(
        es2,
    )[k] == edges_map(es).insert(edge_key_of(e), e.payload)[k] by {
        if k != edge_key_of(e) {
            let i1 = edge_at(es, k);
            let i2 = edge_at(es2, k);
            assert(edge_key_of(es2[i2]) == k);
            if i2 == es.len() {
                assert(false);
            }
            assert(edge_key_of(es[i2]) == k);
            assert(edge_keys(es)[i1] == k && edge_keys(es)[i2] == k);
        } else {
            let i2 = edge_at(es2, k);
            if i2 < es.len() {
                assert(edge_key_of(es[i2]) == k);
                assert(false);
            }
        }
    }
    assert(edges_map(es2) =~= edges_map(es).insert(edge_key_of(e), e.payload));
}

proof fn lemma_update_edge_maps<E>(es: Seq<EdgeEntry<E>>, i: int, e: EdgeEntry<E>)
    requires
        edge_keys(es).no_duplicates(),
        0 <= i < es.len(),
        edge_key_of(e) == edge_key_of(es[i]),
    ensures
        edge_keys(es.update(i, e)) =~= edge_keys(es),
        edge_keys(es.update(i, e)).no_duplicates(),
        forall|k: (usize, usize)| has_edge(es.update(i, e), k) <==> has_edge(es, k),
        edge_at(es, edge_key_of(e)) == i,
        edges_map(es.update(i, e)) == edges_map(es).insert(edge_key_of(e), e.payload),
{
    let es2 = es.update(i, e);
    assert forall|j: int| 0 <= j < es2.len() implies edge_keys(es2)[j] == edge_keys(es)[j] by {}
    assert(edge_keys(es2) =~= edge_keys(es));
    lemma_edge_at(es, i);
    assert forall|k: (usize, usize)| has_edge(es, k) implies has_edge(es2, k) by {
        let j = choose|j: int| 0 <= j < es.len() && edge_key_of(es[j]) == k;
        assert(edge_key_of(es2[j]) == k);
    }
    assert forall|k: (usize, usize)| has_edge(es2, k) implies has_edge(es, k) by {
        let j = choose|j: int| 0 <= j < es2.len() && edge_key_of(es2[j]) == k;
        assert(edge_key_of(es[j]) == k);
    }
    assert forall|k: (usize, usize)| #[trigger] edges_map(es2).dom().contains(k) implies edges_map(
        es2,
    )[k] == edges_map(es).insert(edge_key_of(e), e.payload)[k] by {
        let j1 = edge_at(es, k);
        let j2 = edge_at(es2, k);
        assert(edge_key_of(es[j1]) == k && edge_key_of(es2[j2]) == k);
        assert(edge_key_of(es[j2]) == k);
        assert(edge_keys(es)[j1] == k && edge_keys(es)[j2] == k);
        if k == edge_key_of(e) {
            assert(edge_keys(es)[i] == k);
        }
    }
    assert(edges_map(es2) =~= edges_map(es).insert(edge_key_of(e), e.payload));
}

proof fn lemma_wf_same_skeleton<V, E>(
    ns1: Seq<NodeEntry<V>>,
    ns2: Seq<NodeEntry<V>>,
    es: Seq<EdgeEntry<E>>,
    directed: bool,
)
    requires
        wf_parts(ns1, es, directed),
        ns1.len() == ns2.len(),
        forall|i: int|
            0 <= i < ns1.len() ==> (#[trigger] ns1[i]).id == ns2[i].id && ns1[i].adj@
                == ns2[i].adj@,
    ensures
        wf_parts(ns2, es, directed),
{
    lemma_ids_transfer(ns1, ns2);
    assert forall|j: int| 0 <= j < es.len() implies has_node(ns2, (#[trigger] es[j]).from)
        && has_node(ns2, es[j].to) by {
        assert(has_node(ns1, es[j].from) && has_node(ns1, es[j].to));
    }
    assert forall|i: int, j: int|
        0 <= i < ns2.len() && 0 <= j < ns2[i].adj@.len() implies has_node(
        ns2,
        #[trigger] ns2[i].adj@[j],
    ) by {
        assert(has_node(ns1, ns1[i].adj@[j]));
    }
    assert forall|i: int, j: int|
        0 <= i < ns2.len() && 0 <= j < ns2[i].adj@.len() implies has_edge(
        es,
        spec_canon(directed, ns2[i].id, #[trigger] ns2[i].adj@[j]),
    ) by {
        assert(has_edge(es, spec_canon(directed, ns1[i].id, ns1[i].adj@[j])));
    }
    assert forall|j: int| 0 <= j < es.len() implies ns2[node_at(
        ns2,
        (#[trigger] es[j]).from,
    )].adj@.contains(es[j].to) by {
        assert(has_node(ns1, es[j].from));
        assert(node_at(ns2, es[j].from) == node_at(ns1, es[j].from));
        assert(ns1[node_at(ns1, es[j].from)].adj@.contains(es[j].to));
    }
    if !directed {
        assert forall|j: int| 0 <= j < es.len() implies ns2[node_at(
            ns2,
            (#[trigger] es[j]).to,
        )].adj@.contains(es[j].from) by {
            assert(has_node(ns1, es[j].to));
            assert(node_at(ns2, es[j].to) == node_at(ns1, es[j].to));
            assert(ns1[node_at(ns1, es[j].to)].adj@.contains(es[j].from));
        }
    }
}

proof fn lemma_wf_push_isolated<V, E>(
    ns: Seq<NodeEntry<V>>,
    es: Seq<EdgeEntry<E>>,
    directed: bool,
    e: NodeEntry<V>,
)
    requires
        wf_parts(ns, es, directed),
        !has_node(ns, e.id),
        e.adj@.len() == 0,
    ensures
        wf_parts(ns.push(e), es, directed),
{
    let ns2 = ns.push(e);
    lemma_push_node_maps(ns, e);
    assert forall|j: int| 0 <= j < es.len() implies has_node(ns2, (#[trigger] es[j]).from)
        && has_node(ns2, es[j].to) by {
        assert(has_node(ns, es[j].from) && has_node(ns, es[j].to));
    }
    assert forall|i: int, j: int|
        0 <= i < ns2.len() && 0 <= j < ns2[i].adj@.len() implies has_node(
        ns2,
        #[trigger] ns2[i].adj@[j],
    ) by {
        if i < ns.len() {
            assert(has_node(ns, ns[i].adj@[j]));
        }
    }
    assert forall|i: int, j: int|
        0 <= i < ns2.len() && 0 <= j < ns2[i].adj@.len() implies has_edge(
        es,
        spec_canon(directed, ns2[i].id, #[trigger] ns2[i].adj@[j]),
    ) by {
        if i < ns.len() {
            assert(has_edge(es, spec_canon(directed, ns[i].id, ns[i].adj@[j])));
        }
    }
    assert forall|j: int| 0 <= j < es.len() implies ns2[node_at(
        ns2,
        (#[trigger] es[j]).from,
    )].adj@.contains(es[j].to) by {
        assert(has_node(ns, es[j].from));
        assert(es[j].from != e.id);
        assert(node_at(ns2, es[j].from) == node_at(ns, es[j].from));
        assert(ns[node_at(ns, es[j].from)].adj@.contains(es[j].to));
    }
    if !directed {
        assert forall|j: int| 0 <= j < es.len() implies ns2[node_at(
            ns2,
            (#[trigger] es[j]).to,
        )].adj@.contains(es[j].from) by {
            assert(has_node(ns, es[j].to));
            assert(es[j].to != e.id);
            assert(node_at(ns2, es[j].to) == node_at(ns, es[j].to));
            assert(ns[node_at(ns, es[j].to)].adj@.contains(es[j].from));
        }
    }
}

proof fn lemma_wf_after_edge<V, E>(
    ns0: Seq<NodeEntry<V>>,
    nsf: Seq<NodeEntry<V>>,
    es0: Seq<EdgeEntry<E>>,
    esf: Seq<EdgeEntry<E>>,
    directed: bool,
    from: usize,
    to: usize,
)
    requires
        wf_parts(ns0, es0, directed),
        has_node(ns0, from),
        has_node(ns0, to),
        nsf.len() == ns0.len(),
        forall|x: int| 0 <= x < ns0.len() ==> (#[trigger] nsf[x]).id == ns0[x].id,
        forall|x: int, y: usize|
            0 <= x < ns0.len() && (#[trigger] ns0[x].adj@.contains(y)) ==> nsf[x].adj@.contains(y),
        forall|x: int, q: int|
            0 <= x < nsf.len() && 0 <= q < nsf[x].adj@.len() ==> ns0[x].adj@.contains(
                #[trigger] nsf[x].adj@[q],
            ) || (nsf[x].id == from && nsf[x].adj@[q] == to) || (!directed && nsf[x].id == to
                && nsf[x].adj@[q] == from),
        nsf[node_at(ns0, from)].adj@.contains(to),
        !directed ==> nsf[node_at(ns0, to)].adj@.contains(from),
        edge_keys(esf).no_duplicates(),
        forall|k: (usize, usize)|
            #[trigger] has_edge(esf, k) <==> has_edge(es0, k) || k == spec_canon(
                directed,
                from,
                to,
            ),
    ensures
        wf_parts(nsf, esf, directed),
{
    let key = spec_canon(directed, from, to);
    lemma_ids_transfer(ns0, nsf);
    assert forall|x: int|
        0 <= x < esf.len() implies has_node(nsf, (#[trigger] esf[x]).from) && has_node(
        nsf,
        esf[x].to,
    ) && (!directed ==> esf[x].from <= esf[x].to) by {
        let k = edge_key_of(esf[x]);
        assert(has_edge(esf, k));
        if has_edge(es0, k) {
            let y = edge_at(es0, k);
            assert(edge_key_of(es0[y]) == k);
            assert(has_node(ns0, es0[y].from) && has_node(ns0, es0[y].to));
            if !directed {
                assert(es0[y].from <= es0[y].to);
            }
        } else {
            assert(k == key);
        }
    }
    assert forall|x: int, q: int|
        0 <= x < nsf.len() && 0 <= q < nsf[x].adj@.len() implies has_node(
        nsf,
        #[trigger] nsf[x].adj@[q],
    ) && has_edge(esf, spec_canon(directed, nsf[x].id, nsf[x].adj@[q])) by {
        let t = nsf[x].adj@[q];
        if ns0[x].adj@.contains(t) {
            let q0 = choose|q0: int| 0 <= q0 < ns0[x].adj@.len() && ns0[x].adj@[q0] == t;
            assert(has_node(ns0, ns0[x].adj@[q0]));
            assert(has_edge(es0, spec_canon(directed, ns0[x].id, ns0[x].adj@[q0])));
        } else if nsf[x].id == from && t == to {
            assert(has_node(ns0, to));
            assert(has_edge(esf, key));
        } else {
            assert(!directed && nsf[x].id == to && t == from);
            assert(has_node(ns0, from));
            assert(spec_canon(directed, to, from) == key);
            assert(has_edge(esf, key));
        }
    }
    assert forall|x: int| 0 <= x < esf.len() implies nsf[node_at(
        nsf,
        (#[trigger] esf[x]).from,
    )].adj@.contains(esf[x].to) && (!directed ==> nsf[node_at(nsf, esf[x].to)].adj@.contains(
        esf[x].from,
    )) by {
        let k = edge_key_of(esf[x]);
        assert(has_edge(esf, k));
        if has_edge(es0, k) {
            let y = edge_at(es0, k);
            assert(edge_key_of(es0[y]) == k);
            assert(has_node(ns0, es0[y].from) && has_node(ns0, es0[y].to));
            assert(ns0[node_at(ns0, es0[y].from)].adj@.contains(es0[y].to));
            assert(node_at(nsf, k.0) == node_at(ns0, k.0));
            lemma_node_at(ns0, node_at(ns0, k.0));
            assert(nsf[node_at(nsf, k.0)].adj@.contains(k.1));
            if !directed {
                assert(ns0[node_at(ns0, es0[y].to)].adj@.contains(es0[y].from));
                assert(node_at(nsf, k.1) == node_at(ns0, k.1));
                lemma_node_at(ns0, node_at(ns0, k.1));
                assert(nsf[node_at(nsf, k.1)].adj@.contains(k.0));
            }
        } else {
            assert(k == key);
            if directed {
                assert(k == (from, to));
                assert(node_at(nsf, from) == node_at(ns0, from));
                assert(nsf[node_at(nsf, k.0)].adj@.contains(k.1));
            } else {
                assert(node_at(nsf, from) == node_at(ns0, from));
                assert(node_at(nsf, to) == node_at(ns0, to));
                if from <= to {
                    assert(k == (from, to));
                    assert(nsf[node_at(nsf, k.0)].adj@.contains(k.1));
                    assert(nsf[node_at(nsf, k.1)].adj@.contains(k.0));
                } else {
                    assert(k == (to, from));
                    assert(nsf[node_at(nsf, k.0)].adj@.contains(k.1));
                    assert(nsf[node_at(nsf, k.1)].adj@.contains(k.0));
                }
            }
        }
    }
}

impl<V, E> AdjListGraph<V, E> {
    /// Creates an empty graph with the given directedness.
    pub fn new(is_directed: bool) -> (g: Self)
        ensures
            g.wf(),
            g.spec_directed() == is_directed,
            g.spec_nodes() =~= Map::<usize, Option<V>>::empty(),
            g.spec_adj() =~= Map::<usize, Seq<usize>>::empty(),
            g.spec_edges() =~= Map::<(usize, usize), Option<E>>::empty(),
    {
        let g = AdjListGraph { nodes: Vec::new(), edges: Vec::new(), directed: is_directed };
        proof {
            assert(node_ids(g.nodes@) =~= Seq::<usize>::empty());
            assert(edge_keys(g.edges@) =~= Seq::<(usize, usize)>::empty());
        }
        g
    }

    /// The number of distinct nodes.
    pub fn size(&self) -> (n: usize)
        requires
            self.wf(),
        ensures
            n == self.spec_nodes().dom().len(),
    {
        proof {
            self.lemma_counts();
        }
        self.nodes.len()
    }

    /// The number of distinct canonical edge keys.
    pub fn num_edges(&self) -> (n: usize)
        requires
            self.wf(),
        ensures
            n == self.spec_edges().dom().len(),
    {
        proof {
            self.lemma_counts();
        }
        self.edges.len()
    }

    /// Whether the graph is directed.
    pub fn is_directed(&self) -> (d: bool)
        ensures
            d == self.spec_directed(),
    {
        self.directed
    }

    /// The position of node `node` in the backing vector, if present.
    fn find_node(&self, node: usize) -> (r: Option<usize>)
        ensures
            match r {
                Some(i) => i < self.nodes@.len() && self.nodes@[i as int].id == node
                    && self.spec_nodes().dom().contains(node),
                None => !self.spec_nodes().dom().contains(node),
            },
    {
        let n = self.nodes.len();
        let mut i: usize = 0;
        while i < n
            invariant
                n == self.nodes@.len(),
                i <= n,
                forall|j: int| 0 <= j < i ==> (#[trigger] self.nodes@[j].id) != node,
            decreases n - i,
        {
            if self.nodes[i].id == node {
                return Some(i);
            }
            i += 1;
        }
        None
    }

    /// The position of the canonical edge key `key` in the backing vector,
    /// if present.
    fn find_edge(&self, key: (usize, usize)) -> (r: Option<usize>)
        ensures
            match r {
                Some(i) => i < self.edges@.len() && edge_key_of(self.edges@[i as int]) == key
                    && self.spec_edges().dom().contains(key),
                None => !self.spec_edges().dom().contains(key),
            },
    {
        let n = self.edges.len();
        let mut i: usize = 0;
        while i < n
            invariant
                n == self.edges@.len(),
                i <= n,
                forall|j: int| 0 <= j < i ==> (#[trigger] edge_key_of(self.edges@[j])) != key,
            decreases n - i,
        {
            if self.edges[i].from == key.0 && self.edges[i].to == key.1 {
                proof {
                    assert(edge_key_of(self.edges@[i as int]) == key);
                }
                return Some(i);
            }
            i += 1;
        }
        None
    }

    /// Whether a node with id `node` exists.
    pub fn contains_node(&self, node: usize) -> (r: bool)
        requires
            self.wf(),
        ensures
            r == self.spec_nodes().dom().contains(node),
    {
        self.find_node(node).is_some()
    }

    /// Whether an edge with canonical key `canon(from, to)` exists.
    pub fn contains_edge(&self, from: usize, to: usize) -> (r: bool)
        requires
            self.wf(),
        ensures
            r == self.spec_edges().dom().contains(self.edge_key(from, to)),
    {
        let key = if self.directed || from <= to {
            (from, to)
        } else {
            (to, from)
        };
        self.find_edge(key).is_some()
    }

    /// Inserts or overwrites the payload of node `n`; the adjacency of an
    /// existing node is untouched.
    fn add_node_internal(&mut self, n: usize, p: Option<V>)
        requires
            old(self).wf(),
        ensures
            final(self).wf(),
            final(self).spec_directed() == old(self).spec_directed(),
            final(self).spec_edges() == old(self).spec_edges(),
            final(self).spec_nodes() == old(self).spec_nodes().insert(n, p),
            final(self).spec_adj() == ensure_adj(old(self).spec_adj(), n),
    {
        let ghost ns = self.nodes@;
        match self.find_node(n) {
            Some(i) => {
                self.nodes[i].payload = p;
                proof {
                    let e2 = self.nodes@[i as int];
                    assert(self.nodes@ =~= ns.update(i as int, e2));
                    lemma_update_node_maps(ns, i as int, e2);
                    lemma_wf_same_skeleton(ns, self.nodes@, self.edges@, self.directed);
                    lemma_node_at(ns, i as int);
                    assert(adj_map(ns).insert(n, e2.adj@) =~= adj_map(ns));
                }
            },
            None => {
                self.nodes.push(NodeEntry { id: n, payload: p, adj: Vec::new() });
                proof {
                    let e2 = self.nodes@[ns.len() as int];
                    assert(self.nodes@ =~= ns.push(e2));
                    lemma_push_node_maps(ns, e2);
                    lemma_wf_push_isolated(ns, self.edges@, self.directed, e2);
                }
            },
        }
    }

    /// Adds node `n` with an absent payload, overwriting any prior payload.
    pub fn add_node(&mut self, n: usize)
        requires
            old(self).wf(),
        ensures
            final(self).wf(),
            final(self).spec_directed() == old(self).spec_directed(),
            final(self).spec_edges() == old(self).spec_edges(),
            final(self).spec_nodes() == old(self).spec_nodes().insert(n, None),
            final(self).spec_adj() == ensure_adj(old(self).spec_adj(), n),
    {
        self.add_node_internal(n, None);
    }

    /// Adds node `n` with payload `v`, overwriting any prior payload.
    pub fn add_node_with_prop(&mut self, n: usize, v: V)
        requires
            old(self).wf(),
        ensures
            final(self).wf(),
            final(self).spec_directed() == old(self).spec_directed(),
            final(self).spec_edges() == old(self).spec_edges(),
            final(self).spec_nodes() == old(self).spec_nodes().insert(n, Some(v)),
            final(self).spec_adj() == ensure_adj(old(self).spec_adj(), n),
    {
        self.add_node_internal(n, Some(v));
    }

    /// Adds every listed node with an absent payload, in order.
    pub fn add_nodes(&mut self, vertices: Vec<usize>)
        requires
            old(self).wf(),
        ensures
            final(self).wf(),
            final(self).spec_directed() == old(self).spec_directed(),
            final(self).spec_edges() == old(self).spec_edges(),
            final(self).spec_nodes() =~= Map::new(
                |k: usize| old(self).spec_nodes().dom().contains(k) || vertices@.contains(k),
                |k: usize|
                    if vertices@.contains(k) {
                        None
                    } else {
                        old(self).spec_nodes()[k]
                    },
            ),
            final(self).spec_adj() =~= Map::new(
                |k: usize| old(self).spec_adj().dom().contains(k) || vertices@.contains(k),
                |k: usize|
                    if old(self).spec_adj().dom().contains(k) {
                        old(self).spec_adj()[k]
                    } else {
                        Seq::empty()
                    },
            ),
    {
        let n = vertices.len();
        let mut i: usize = 0;
        while i < n
            invariant
                self.wf(),
                n == vertices@.len(),
                i <= n,
                self.spec_directed() == old(self).spec_directed(),
                self.spec_edges() == old(self).spec_edges(),
                self.spec_nodes() =~= Map::new(
                    |k: usize| old(self).spec_nodes().dom().contains(k) || vertices@.take(
                        i as int,
                    ).contains(k),
                    |k: usize|
                        if vertices@.take(i as int).contains(k) {
                            None
                        } else {
                            old(self).spec_nodes()[k]
                        },
                ),
                self.spec_adj() =~= Map::new(
                    |k: usize| old(self).spec_adj().dom().contains(k) || vertices@.take(
                        i as int,
                    ).contains(k),
                    |k: usize|
                        if old(self).spec_adj().dom().contains(k) {
                            old(self).spec_adj()[k]
                        } else {
                            Seq::empty()
                        },
                ),
            decreases n - i,
        {
            self.add_node(vertices[i]);
            proof {
                assert(vertices@.take(i + 1) =~= vertices@.take(i as int).push(vertices@[i as int]));
                assert forall|k: usize| vertices@.take(i + 1).contains(k) implies vertices@.take(
                    i as int,
                ).contains(k) || k == vertices@[i as int] by {
                    let t = vertices@.take(i + 1);
                    let j = choose|j: int| 0 <= j < t.len() && (#[trigger] t[j]) == k;
                    if j < i {
                        assert(vertices@.take(i as int)[j] == k);
                    }
                }
                assert(vertices@.take(i + 1)[i as int] == vertices@[i as int]);
                assert(vertices@.take(i + 1).contains(vertices@[i as int]));
                assert forall|k: usize|
                    vertices@.take(i as int).contains(k) implies vertices@.take(i + 1).contains(
                    k,
                ) by {
                    let t = vertices@.take(i as int);
                    let j = choose|j: int| 0 <= j < t.len() && (#[trigger] t[j]) == k;
                    assert(vertices@.take(i + 1)[j] == k);
                }
                assert(self.spec_adj() =~= Map::new(
                    |k: usize| old(self).spec_adj().dom().contains(k) || vertices@.take(
                        i + 1,
                    ).contains(k),
                    |k: usize|
                        if old(self).spec_adj().dom().contains(k) {
                            old(self).spec_adj()[k]
                        } else {
                            Seq::empty()
                        },
                ));
            }
            i += 1;
        }
        proof {
            assert(vertices@.take(n as int) =~= vertices@);
        }
    }

    /// Adds every listed node with its payload, in order; a later duplicate
    /// id overwrites the earlier payload.
    pub fn add_nodes_with_prop(&mut self, vertices: Vec<(usize, V)>) where V: Copy
        requires
            old(self).wf(),
        ensures
            final(self).wf(),
            final(self).spec_directed() == old(self).spec_directed(),
            final(self).spec_edges() == old(self).spec_edges(),
            final(self).spec_nodes() == fold_add_nodes(old(self).spec_nodes(), vertices@),
            final(self).spec_adj() =~= Map::new(
                |k: usize| old(self).spec_adj().dom().contains(k) || vertices@.map_values(
                    |t: (usize, V)| t.0,
                ).contains(k),
                |k: usize|
                    if old(self).spec_adj().dom().contains(k) {
                        old(self).spec_adj()[k]
                    } else {
                        Seq::empty()
                    },
            ),
    {
        let n = vertices.len();
        let mut i: usize = 0;
        while i < n
            invariant
                self.wf(),
                n == vertices@.len(),
                i <= n,
                self.spec_directed() == old(self).spec_directed(),
                self.spec_edges() == old(self).spec_edges(),
                self.spec_nodes() == fold_add_nodes(old(self).spec_nodes(), vertices@.take(i as int)),
                self.spec_adj() =~= Map::new(
                    |k: usize| old(self).spec_adj().dom().contains(k) || vertices@.take(
                        i as int,
                    ).map_values(|t: (usize, V)| t.0).contains(k),
                    |k: usize|
                        if old(self).spec_adj().dom().contains(k) {
                            old(self).spec_adj()[k]
                        } else {
                            Seq::empty()
                        },
                ),
            decreases n - i,
        {
            let (id, v) = vertices[i];
            self.add_node_with_prop(id, v);
            proof {
                lemma_fold_add_nodes_snoc(old(self).spec_nodes(), vertices@.take(i as int), vertices@[i as int]);
                assert(vertices@.take(i + 1) =~= vertices@.take(i as int).push(vertices@[i as int]));
                let f = |t: (usize, V)| t.0;
                assert forall|k: usize|
                    vertices@.take(i + 1).map_values(f).contains(k) implies vertices@.take(
                    i as int,
                ).map_values(f).contains(k) || k == vertices@[i as int].0 by {
                    let t = vertices@.take(i + 1).map_values(f);
                    let j = choose|j: int| 0 <= j < t.len() && (#[trigger] t[j]) == k;
                    if j < i {
                        assert(vertices@.take(i as int).map_values(f)[j] == k);
                    }
                }
                assert(vertices@.take(i as int).push(vertices@[i as int]).map_values(f).contains(
                    vertices@[i as int].0,
                )) by {
                    assert(vertices@.take(i + 1).map_values(f)[i as int] == vertices@[i as int].0);
                }
                assert(vertices@.take(i + 1).map_values(f)[i as int] == vertices@[i as int].0);
                assert(vertices@.take(i + 1).map_values(f).contains(vertices@[i as int].0));
                assert forall|k: usize|
                    vertices@.take(i as int).map_values(f).contains(k) implies vertices@.take(
                    i + 1,
                ).map_values(f).contains(k) by {
                    let t = vertices@.take(i as int).map_values(f);
                    let j = choose|j: int| 0 <= j < t.len() && (#[trigger] t[j]) == k;
                    assert(vertices@.take(i + 1).map_values(f)[j] == k);
                }
                assert(self.spec_adj() =~= Map::new(
                    |k: usize| old(self).spec_adj().dom().contains(k) || vertices@.take(
                        i + 1,
                    ).map_values(f).contains(k),
                    |k: usize|
                        if old(self).spec_adj().dom().contains(k) {
                            old(self).spec_adj()[k]
                        } else {
                            Seq::empty()
                        },
                ));
            }
            i += 1;
        }
        proof {
            assert(vertices@.take(n as int) =~= vertices@);
        }
    }

    /// The payload of node `node`, which must exist; an absent payload is a
    /// distinct state, not a default value.
    pub fn node_prop(&self, node: usize) -> (r: &Option<V>)
        requires
            self.wf(),
            self.spec_nodes().dom().contains(node),
        ensures
            *r == self.spec_nodes()[node],
    {
        let i = self.find_node(node).unwrap();
        proof {
            lemma_node_at(self.nodes@, i as int);
        }
        &self.nodes[i].payload
    }

    /// Transplants node `v`'s current payload into `other`, creating or
    /// overwriting the node there; `other`'s edges are untouched.
    pub fn copy_node_to(&self, other: &mut Self, v: usize) where V: Copy
        requires
            self.wf(),
            old(other).wf(),
            self.spec_nodes().dom().contains(v),
        ensures
            final(other).wf(),
            final(other).spec_directed() == old(other).spec_directed(),
            final(other).spec_edges() == old(other).spec_edges(),
            final(other).spec_nodes() == old(other).spec_nodes().insert(v, self.spec_nodes()[v]),
            final(other).spec_adj() == ensure_adj(old(other).spec_adj(), v),
    {
        let p = self.node_prop(v);
        other.add_node_internal(v, *p);
    }

    /// The ids of all nodes, in insertion order, without duplicates.
    pub fn nodes_iter(&self) -> (r: Vec<usize>)
        requires
            self.wf(),
        ensures
            r@.no_duplicates(),
            r@.to_set() == self.spec_nodes().dom(),
            forall|x: int| 0 <= x < r@.len() ==> self.spec_nodes().dom().contains(#[trigger] r@[x]),
            r@.len() == self.spec_nodes().dom().len(),
    {
        let n = self.nodes.len();
        let mut r: Vec<usize> = Vec::new();
        let mut i: usize = 0;
        while i < n
            invariant
                n == self.nodes@.len(),
                i <= n,
                r@ =~= node_ids(self.nodes@).take(i as int),
            decreases n - i,
        {
            r.push(self.nodes[i].id);
            proof {
                assert(node_ids(self.nodes@)[i as int] == self.nodes@[i as int].id);
                assert(r@ =~= node_ids(self.nodes@).take(i + 1));
            }
            i += 1;
        }
        proof {
            assert(r@ =~= node_ids(self.nodes@));
            lemma_maps_dom(self.nodes@, self.edges@);
            assert(r@.to_set() =~= self.spec_nodes().dom());
            self.lemma_counts();
        }
        r
    }

    /// The canonical keys of all edges, in insertion order, without
    /// duplicates.
    pub fn edges_iter(&self) -> (r: Vec<(usize, usize)>)
        requires
            self.wf(),
        ensures
            r@.no_duplicates(),
            r@.to_set() == self.spec_edges().dom(),
            forall|x: int| 0 <= x < r@.len() ==> self.spec_edges().dom().contains(#[trigger] r@[x]),
            r@.len() == self.spec_edges().dom().len(),
    {
        let n = self.edges.len();
        let mut r: Vec<(usize, usize)> = Vec::new();
        let mut i: usize = 0;
        while i < n
            invariant
                n == self.edges@.len(),
                i <= n,
                r@ =~= edge_keys(self.edges@).take(i as int),
            decreases n - i,
        {
            r.push((self.edges[i].from, self.edges[i].to));
            proof {
                assert(edge_keys(self.edges@)[i as int] == edge_key_of(self.edges@[i as int]));
                assert(r@ =~= edge_keys(self.edges@).take(i + 1));
            }
            i += 1;
        }
        proof {
            assert(r@ =~= edge_keys(self.edges@));
            lemma_maps_dom(self.nodes@, self.edges@);
            assert(r@.to_set() =~= self.spec_edges().dom());
            self.lemma_counts();
        }
        r
    }

    /// The adjacency sequence of node `from`, which must exist: the ids of
    /// its traversal targets in insertion order, duplicates preserved.
    pub fn adj_iter(&self, from: usize) -> (r: Vec<usize>)
        requires
            self.wf(),
            self.spec_nodes().dom().contains(from),
        ensures
            r@ == self.spec_adj()[from],
    {
        let i = self.find_node(from).unwrap();
        proof {
            lemma_node_at(self.nodes@, i as int);
        }
        let m = self.nodes[i].adj.len();
        let mut r: Vec<usize> = Vec::new();
        let mut k: usize = 0;
        while k < m
            invariant
                i < self.nodes@.len(),
                m == self.nodes@[i as int].adj@.len(),
                k <= m,
                r@ =~= self.nodes@[i as int].adj@.take(k as int),
            decreases m - k,
        {
            r.push(self.nodes[i].adj[k]);
            proof {
                assert(r@ =~= self.nodes@[i as int].adj@.take(k + 1));
            }
            k += 1;
        }
        proof {
            assert(r@ =~= self.nodes@[i as int].adj@);
        }
        r
    }

    /// Adds node `n` with an absent payload only if it is missing.
    fn ensure_present(&mut self, n: usize)
        requires
            old(self).wf(),
        ensures
            final(self).wf(),
            final(self).spec_directed() == old(self).spec_directed(),
            final(self).spec_edges() == old(self).spec_edges(),
            final(self).spec_nodes() == ensure_node(old(self).spec_nodes(), n),
            final(self).spec_adj() == ensure_adj(old(self).spec_adj(), n),
    {
        if self.find_node(n).is_none() {
            let ghost ns = self.nodes@;
            self.nodes.push(NodeEntry { id: n, payload: None, adj: Vec::new() });
            proof {
                let e2 = self.nodes@[ns.len() as int];
                assert(self.nodes@ =~= ns.push(e2));
                lemma_push_node_maps(ns, e2);
                lemma_wf_push_isolated(ns, self.edges@, self.directed, e2);
            }
        }
    }

    /// Inserts edge `(from, to)` with payload `e`: missing endpoints are
    /// created with absent payloads, adjacency is appended (both directions
    /// if undirected), and the payload is recorded under the canonical key.
    fn add_edge_internal(&mut self, from: usize, to: usize, e: Option<E>)
        requires
            old(self).wf(),
        ensures
            final(self).wf(),
            final(self).model() == step_add_edge(old(self).model(), from, to, e),
    {
        self.ensure_present(from);
        self.ensure_present(to);
        let ghost ns0 = self.nodes@;
        let ghost es0 = self.edges@;
        let ghost base = self.spec_adj();
        proof {
            assert(nodes_map(ns0).dom().contains(from));
            assert(nodes_map(ns0).dom().contains(to));
            assert(has_node(ns0, from) && has_node(ns0, to));
        }
        let i = self.find_node(from).unwrap();
        proof {
            lemma_node_at(ns0, i as int);
        }
        self.nodes[i].adj.push(to);
        let ghost ns1 = self.nodes@;
        let ghost a1 = base.insert(from, base[from].push(to));
        proof {
            assert(ns1 =~= ns0.update(i as int, ns1[i as int]));
            lemma_update_node_maps(ns0, i as int, ns1[i as int]);
            assert(nodes_map(ns1) =~= nodes_map(ns0));
            assert(adj_map(ns0)[from] == ns0[i as int].adj@);
            assert(ns1[i as int].adj@ == ns0[i as int].adj@.push(to));
            assert(adj_map(ns1) == a1);
        }
        if !self.directed {
            let j = self.find_node(to).unwrap();
            proof {
                lemma_node_at(ns1, j as int);
            }
            self.nodes[j].adj.push(from);
            proof {
                let nsf = self.nodes@;
                assert(nsf =~= ns1.update(j as int, nsf[j as int]));
                lemma_update_node_maps(ns1, j as int, nsf[j as int]);
                assert(nodes_map(nsf) =~= nodes_map(ns0));
                assert(adj_map(ns1)[to] == ns1[j as int].adj@);
                assert(nsf[j as int].adj@ == ns1[j as int].adj@.push(from));
                assert(adj_map(nsf) == a1.insert(to, a1[to].push(from)));
                assert(node_at(ns1, to) == node_at(ns0, to));
                assert(j as int == node_at(ns0, to));
                assert(nsf[j as int].adj@[ns1[j as int].adj@.len() as int] == from);
                assert(nsf[j as int].adj@.contains(from));
                assert(nsf[i as int].adj@[ns0[i as int].adj@.len() as int] == to);
                assert(nsf[i as int].adj@.contains(to));
                assert(nsf[node_at(ns0, to)].adj@.contains(from));
            }
        }
        let ghost nsf = self.nodes@;
        let key = if self.directed || from <= to {
            (from, to)
        } else {
            (to, from)
        };
        match self.find_edge(key) {
            Some(k) => {
                self.edges[k].payload = e;
                proof {
                    let e2 = self.edges@[k as int];
                    assert(self.edges@ =~= es0.update(k as int, e2));
                    lemma_update_edge_maps(es0, k as int, e2);
                }
            },
            None => {
                self.edges.push(EdgeEntry { from: key.0, to: key.1, payload: e });
                proof {
                    let e2 = self.edges@[es0.len() as int];
                    assert(self.edges@ =~= es0.push(e2));
                    assert(edge_key_of(e2) == key);
                    lemma_push_edge_maps(es0, e2);
                }
            },
        }
        proof {
            let esf = self.edges@;
            assert(edges_map(esf) == edges_map(es0).insert(key, e));
            assert(node_at(ns0, from) == i as int);
            if self.directed {
                assert(nsf[i as int].adj@ == ns0[i as int].adj@.push(to));
                assert(nsf[i as int].adj@[ns0[i as int].adj@.len() as int] == to);
                assert(nsf[i as int].adj@.contains(to));
            }
            assert(nsf[node_at(ns0, from)].adj@.contains(to));
            assert forall|x: int, y: usize|
                0 <= x < ns0.len() && (#[trigger] ns0[x].adj@.contains(y))
                    implies nsf[x].adj@.contains(y) by {
                let q = choose|q: int| 0 <= q < ns0[x].adj@.len() && ns0[x].adj@[q] == y;
                if x == i as int {
                    if !self.directed && x == node_at(ns1, to) {
                        assert(nsf[x].adj@[q] == y);
                    } else {
                        assert(nsf[x].adj@[q] == y);
                    }
                } else {
                    assert(nsf[x].adj@[q] == y);
                }
            }
            assert forall|x: int, q: int|
                0 <= x < nsf.len() && 0 <= q < nsf[x].adj@.len() implies ns0[x].adj@.contains(
                #[trigger] nsf[x].adj@[q],
            ) || (nsf[x].id == from && nsf[x].adj@[q] == to) || (!self.directed && nsf[x].id == to
                && nsf[x].adj@[q] == from) by {
                if q < ns0[x].adj@.len() && nsf[x].adj@[q] == ns0[x].adj@[q] {
                    assert(ns0[x].adj@.contains(nsf[x].adj@[q]));
                }
            }
            lemma_wf_after_edge(ns0, nsf, es0, esf, self.directed, from, to);
            assert(final(self).model() =~= step_add_edge(old(self).model(), from, to, e));
        }
    }

    /// Adds edge `(from, to)` with an absent payload.
    pub fn add_edge(&mut self, from: usize, to: usize)
        requires
            old(self).wf(),
        ensures
            final(self).wf(),
            final(self).model() == step_add_edge(old(self).model(), from, to, None),
    {
        self.add_edge_internal(from, to, None);
    }

    /// Adds edge `(from, to)` with payload `e`, overwriting any prior
    /// payload under the same canonical key.
    pub fn add_edge_with_prop(&mut self, from: usize, to: usize, e: E)
        requires
            old(self).wf(),
        ensures
            final(self).wf(),
            final(self).model() == step_add_edge(old(self).model(), from, to, Some(e)),
    {
        self.add_edge_internal(from, to, Some(e));
    }

    /// Adds every listed `(from, to)` pair as an edge, in order, with absent
    /// payloads.
    pub fn add_edges(&mut self, edges: Vec<(usize, usize)>)
        requires
            old(self).wf(),
        ensures
            final(self).wf(),
            final(self).model() == fold_add_edges(old(self).model(), edges@),
    {
        let n = edges.len();
        let mut i: usize = 0;
        proof {
            assert(edges@.skip(0) =~= edges@);
        }
        while i < n
            invariant
                self.wf(),
                n == edges@.len(),
                i <= n,
                fold_add_edges(old(self).model(), edges@) == fold_add_edges(
                    self.model(),
                    edges@.skip(i as int),
                ),
            decreases n - i,
        {
            let (from, to) = edges[i];
            let ghost before = self.model();
            self.add_edge(from, to);
            proof {
                let rest = edges@.skip(i as int);
                assert(rest[0] == edges@[i as int]);
                assert(rest.drop_first() =~= edges@.skip(i + 1));
                assert(fold_add_edges(before, rest) == fold_add_edges(
                    step_add_edge(before, from, to, None),
                    edges@.skip(i + 1),
                ));
            }
            i += 1;
        }
        proof {
            assert(edges@.skip(n as int) =~= Seq::<(usize, usize)>::empty());
        }
    }

    /// Adds every listed `(from, to, payload)` triple as an edge, in order.
    pub fn add_edges_with_prop(&mut self, edges: Vec<(usize, usize, E)>) where E: Copy
        requires
            old(self).wf(),
        ensures
            final(self).wf(),
            final(self).model() == fold_add_edges_with_prop(old(self).model(), edges@),
    {
        let n = edges.len();
        let mut i: usize = 0;
        proof {
            assert(edges@.skip(0) =~= edges@);
        }
        while i < n
            invariant
                self.wf(),
                n == edges@.len(),
                i <= n,
                fold_add_edges_with_prop(old(self).model(), edges@) == fold_add_edges_with_prop(
                    self.model(),
                    edges@.skip(i as int),
                ),
            decreases n - i,
        {
            let (from, to, e) = edges[i];
            let ghost before = self.model();
            self.add_edge_with_prop(from, to, e);
            proof {
                let rest = edges@.skip(i as int);
                assert(rest[0] == edges@[i as int]);
                assert(rest.drop_first() =~= edges@.skip(i + 1));
                assert(fold_add_edges_with_prop(before, rest) == fold_add_edges_with_prop(
                    step_add_edge(before, from, to, Some(e)),
                    edges@.skip(i + 1),
                ));
            }
            i += 1;
        }
        proof {
            assert(edges@.skip(n as int) =~= Seq::<(usize, usize, E)>::empty());
        }
    }

    /// The payload of the edge with canonical key `canon(from, to)`, which
    /// must exist; for an undirected graph either argument order retrieves
    /// the payload.
    pub fn edge_prop(&self, from: usize, to: usize) -> (r: &Option<E>)
        requires
            self.wf(),
            self.spec_edges().dom().contains(self.edge_key(from, to)),
        ensures
            *r == self.spec_edges()[self.edge_key(from, to)],
    {
        let key = if self.directed || from <= to {
            (from, to)
        } else {
            (to, from)
        };
        let k = self.find_edge(key).unwrap();
        proof {
            lemma_edge_at(self.edges@, k as int);
        }
        &self.edges[k].payload
    }

    /// Transplants edge `(from, to)` — both endpoint nodes with their
    /// current payloads, then the edge with its payload — into `other`.
    pub fn copy_edge_to(&self, other: &mut Self, from: usize, to: usize) where V: Copy, E: Copy
        requires
            self.wf(),
            old(other).wf(),
            self.spec_edges().dom().contains(self.edge_key(from, to)),
        ensures
            final(other).wf(),
            final(other).model() == step_add_edge(
                GraphModel {
                    nodes: old(other).spec_nodes().insert(from, self.spec_nodes()[from]).insert(
                        to,
                        self.spec_nodes()[to],
                    ),
                    ..old(other).model()
                },
                from,
                to,
                self.spec_edges()[self.edge_key(from, to)],
            ),
    {
        proof {
            self.lemma_wf();
        }
        self.copy_node_to(other, from);
        self.copy_node_to(other, to);
        let p = self.edge_prop(from, to);
        other.add_edge_internal(from, to, *p);
        proof {
            assert(final(other).model() =~= step_add_edge(
                GraphModel {
                    nodes: old(other).spec_nodes().insert(from, self.spec_nodes()[from]).insert(
                        to,
                        self.spec_nodes()[to],
                    ),
                    ..old(other).model()
                },
                from,
                to,
                self.spec_edges()[self.edge_key(from, to)],
            ));
        }
    }
}

/// The mathematical model of a graph: its directedness and its three maps.
#[verifier::ext_equal]
pub ghost struct GraphModel<V, E> {
    pub directed: bool,
    pub nodes: Map<usize, Option<V>>,
    pub adj: Map<usize, Seq<usize>>,
    pub edges: Map<(usize, usize), Option<E>>,
}

/// The model after inserting edge `(from, to)` with payload `e`: missing
/// endpoints are created with absent payloads, `to` is appended to `from`'s
/// adjacency (and `from` to `to`'s, if undirected), and the payload is
/// recorded under the canonical key, overwriting any prior payload.
pub open spec fn step_add_edge<V, E>(
    m: GraphModel<V, E>,
    from: usize,
    to: usize,
    e: Option<E>,
) -> GraphModel<V, E> {
    let nodes = ensure_node(ensure_node(m.nodes, from), to);
    let base = ensure_adj(ensure_adj(m.adj, from), to);
    let a1 = base.insert(from, base[from].push(to));
    let adj = if m.directed {
        a1
    } else {
        a1.insert(to, a1[to].push(from))
    };
    GraphModel {
        directed: m.directed,
        nodes,
        adj,
        edges: m.edges.insert(spec_canon(m.directed, from, to), e),
    }
}

/// The model after adding every listed `(from, to)` pair in order, with
/// absent payloads.
pub open spec fn fold_add_edges<V, E>(m: GraphModel<V, E>, items: Seq<(usize, usize)>) -> GraphModel<
    V,
    E,
>
    decreases items.len(),
{
    if items.len() == 0 {
        m
    } else {
        fold_add_edges(step_add_edge(m, items[0].0, items[0].1, None), items.drop_first())
    }
}

/// The model after adding every listed `(from, to, payload)` triple in order.
pub open spec fn fold_add_edges_with_prop<V, E>(
    m: GraphModel<V, E>,
    items: Seq<(usize, usize, E)>,
) -> GraphModel<V, E>
    decreases items.len(),
{
    if items.len() == 0 {
        m
    } else {
        fold_add_edges_with_prop(
            step_add_edge(m, items[0].0, items[0].1, Some(items[0].2)),
            items.drop_first(),
        )
    }
}

/// Both payloads absent, or both present and equal under `eq_spec`.
pub open spec fn opt_eq_spec<T: PartialEq>(a: Option<T>, b: Option<T>) -> bool {
    match (a, b) {
        (Option::None, Option::None) => true,
        (Option::Some(x), Option::Some(y)) => x.eq_spec(&y),
        _ => false,
    }
}

/// Two graphs of equal directedness are equal when their node-payload maps
/// agree, their canonical-edge-payload maps agree, and each node's adjacency
/// sequences are equal as multisets.
pub open spec fn spec_graph_eq<V: PartialEq, E: PartialEq>(
    a: &AdjListGraph<V, E>,
    b: &AdjListGraph<V, E>,
) -> bool {
    &&& a.spec_directed() == b.spec_directed()
    &&& a.spec_nodes().dom() == b.spec_nodes().dom()
    &&& forall|n: usize| #[trigger]
        a.spec_nodes().dom().contains(n) ==> opt_eq_spec(a.spec_nodes()[n], b.spec_nodes()[n])
    &&& a.spec_edges().dom() == b.spec_edges().dom()
    &&& forall|k: (usize, usize)| #[trigger]
        a.spec_edges().dom().contains(k) ==> opt_eq_spec(a.spec_edges()[k], b.spec_edges()[k])
    &&& forall|n: usize| #[trigger]
        a.spec_nodes().dom().contains(n) ==> a.spec_adj()[n].to_multiset()
            == b.spec_adj()[n].to_multiset()
}

fn opt_eq<T: PartialEq>(a: &Option<T>, b: &Option<T>) -> (r: bool)
    ensures
        T::obeys_eq_spec() ==> r == opt_eq_spec(*a, *b),
{
    match (a, b) {
        (Option::None, Option::None) => true,
        (Option::Some(x), Option::Some(y)) => x.eq(y),
        _ => false,
    }
}

spec fn occ_count(s: Seq<usize>, x: usize) -> nat
    decreases s.len(),
{
    if s.len() == 0 {
        0
    } else {
        occ_count(s.drop_last(), x) + if s.last() == x {
            1nat
        } else {
            0nat
        }
    }
}

proof fn lemma_occ_multiset(s: Seq<usize>, x: usize)
    ensures
        occ_count(s, x) == s.to_multiset().count(x),
    decreases s.len(),
{
    broadcast use vstd::seq_lib::group_to_multiset_ensures;

    if s.len() == 0 {
        assert(s.to_multiset() =~= Multiset::<usize>::empty());
    } else {
        lemma_occ_multiset(s.drop_last(), x);
        assert(s =~= s.drop_last().push(s.last()));
        assert(s.drop_last().push(s.last()).to_multiset() =~= s.drop_last().to_multiset().insert(
            s.last(),
        ));
    }
}

fn count_occ(v: &Vec<usize>, x: usize) -> (c: usize)
    ensures
        c == occ_count(v@, x),
{
    let n = v.len();
    let mut c: usize = 0;
    let mut i: usize = 0;
    while i < n
        invariant
            n == v@.len(),
            i <= n,
            c == occ_count(v@.take(i as int), x),
            c <= i,
        decreases n - i,
    {
        if v[i] == x {
            c += 1;
        }
        proof {
            assert(v@.take(i + 1).drop_last() =~= v@.take(i as int));
            assert(v@.take(i + 1).last() == v@[i as int]);
        }
        i += 1;
    }
    proof {
        assert(v@.take(n as int) =~= v@);
    }
    c
}

fn multiset_eq(a: &Vec<usize>, b: &Vec<usize>) -> (r: bool)
    ensures
        r == (a@.to_multiset() == b@.to_multiset()),
{
    broadcast use vstd::seq_lib::group_to_multiset_ensures;

    let n = a.len();
    if n != b.len() {
        proof {
            assert(a@.to_multiset().len() == a@.len());
            assert(b@.to_multiset().len() == b@.len());
        }
        return false;
    }
    let mut i: usize = 0;
    while i < n
        invariant
            n == a@.len(),
            n == b@.len(),
            i <= n,
            forall|j: int| 0 <= j < i ==> occ_count(a@, #[trigger] a@[j]) == occ_count(b@, a@[j]),
            forall|j: int| 0 <= j < i ==> occ_count(a@, #[trigger] b@[j]) == occ_count(b@, b@[j]),
        decreases n - i,
    {
        let ca = count_occ(a, a[i]);
        let cb = count_occ(b, a[i]);
        if ca != cb {
            proof {
                lemma_occ_multiset(a@, a@[i as int]);
                lemma_occ_multiset(b@, a@[i as int]);
                assert(a@.to_multiset().count(a@[i as int]) != b@.to_multiset().count(
                    a@[i as int],
                ));
            }
            return false;
        }
        let ca2 = count_occ(a, b[i]);
        let cb2 = count_occ(b, b[i]);
        if ca2 != cb2 {
            proof {
                lemma_occ_multiset(a@, b@[i as int]);
                lemma_occ_multiset(b@, b@[i as int]);
                assert(a@.to_multiset().count(b@[i as int]) != b@.to_multiset().count(
                    b@[i as int],
                ));
            }
            return false;
        }
        i += 1;
    }
    proof {
        assert forall|x: usize| true implies a@.to_multiset().count(x) == b@.to_multiset().count(
            x,
        ) by {
            lemma_occ_multiset(a@, x);
            lemma_occ_multiset(b@, x);
            if a@.contains(x) {
                let j = choose|j: int| 0 <= j < a@.len() && a@[j] == x;
                assert(occ_count(a@, a@[j]) == occ_count(b@, a@[j]));
            } else if b@.contains(x) {
                let j = choose|j: int| 0 <= j < b@.len() && b@[j] == x;
                assert(occ_count(a@, b@[j]) == occ_count(b@, b@[j]));
            } else {
                assert(a@.to_multiset().count(x) == 0);
                assert(b@.to_multiset().count(x) == 0);
            }
        }
        assert(a@.to_multiset() =~= b@.to_multiset());
    }
    true
}

impl<V, E> AdjListGraph<V, E> {
    /// Whether the two graphs are equal: same directedness, identical
    /// node-id to payload mapping, edge sets equal under canonical keys with
    /// equal payloads, and adjacency lists equal as multisets per node. The
    /// result matches `spec_graph_eq` whenever the payload equalities obey
    /// their specifications.
    pub fn graph_eq(&self, other: &Self) -> (r: bool) where V: PartialEq, E: PartialEq
        requires
            self.wf(),
            other.wf(),
        ensures
            V::obeys_eq_spec() && E::obeys_eq_spec() ==> r == spec_graph_eq(self, other),
    {
        proof {
            self.lemma_wf();
            other.lemma_wf();
        }
        if self.is_directed() != other.is_directed() {
            return false;
        }
        if self.size() != other.size() || self.num_edges() != other.num_edges() {
            return false;
        }
        let ids = self.nodes_iter();
        let idn = ids.len();
        let mut i: usize = 0;
        while i < idn
            invariant
                self.wf(),
                other.wf(),
                self.spec_directed() == other.spec_directed(),
                self.spec_nodes().dom().len() == other.spec_nodes().dom().len(),
                self.spec_edges().dom().len() == other.spec_edges().dom().len(),
                idn == ids@.len(),
                i <= idn,
                ids@.to_set() == self.spec_nodes().dom(),
                forall|j: int|
                    0 <= j < idn ==> self.spec_nodes().dom().contains(#[trigger] ids@[j]),
                forall|j: int|
                    0 <= j < i ==> other.spec_nodes().dom().contains(#[trigger] ids@[j])
                        && self.spec_adj()[ids@[j]].to_multiset()
                        == other.spec_adj()[ids@[j]].to_multiset(),
                V::obeys_eq_spec() ==> forall|j: int|
                    0 <= j < i ==> opt_eq_spec(
                        self.spec_nodes()[#[trigger] ids@[j]],
                        other.spec_nodes()[ids@[j]],
                    ),
            decreases idn - i,
        {
            let n = ids[i];
            if !other.contains_node(n) {
                return false;
            }
            if !opt_eq(self.node_prop(n), other.node_prop(n)) {
                return false;
            }
            let sa = self.adj_iter(n);
            let oa = other.adj_iter(n);
            if !multiset_eq(&sa, &oa) {
                return false;
            }
            i += 1;
        }
        let keys = self.edges_iter();
        let kn = keys.len();
        let mut t: usize = 0;
        while t < kn
            invariant
                self.wf(),
                other.wf(),
                self.spec_directed() == other.spec_directed(),
                self.spec_edges().dom().len() == other.spec_edges().dom().len(),
                kn == keys@.len(),
                t <= kn,
                keys@.to_set() == self.spec_edges().dom(),
                forall|j: int|
                    0 <= j < kn ==> self.spec_edges().dom().contains(#[trigger] keys@[j]),
                forall|j: int|
                    0 <= j < t ==> other.spec_edges().dom().contains(#[trigger] keys@[j]),
                E::obeys_eq_spec() ==> forall|j: int|
                    0 <= j < t ==> opt_eq_spec(
                        self.spec_edges()[#[trigger] keys@[j]],
                        other.spec_edges()[keys@[j]],
                    ),
            decreases kn - t,
        {
            let k = keys[t];
            proof {
                self.lemma_wf();
                assert(self.edge_key(k.0, k.1) == k);
                assert(other.edge_key(k.0, k.1) == k);
            }
            if !other.contains_edge(k.0, k.1) {
                return false;
            }
            if !opt_eq(self.edge_prop(k.0, k.1), other.edge_prop(k.0, k.1)) {
                return false;
            }
            t += 1;
        }
        proof {
            self.lemma_wf();
            other.lemma_wf();
            assert(self.spec_nodes().dom() =~= other.spec_nodes().dom()) by {
                assert forall|n: usize| #[trigger]
                    self.spec_nodes().dom().contains(n) implies other.spec_nodes().dom().contains(
                    n,
                ) by {
                    assert(ids@.to_set().contains(n));
                    let j = choose|j: int| 0 <= j < ids@.len() && ids@[j] == n;
                }
                if exists|n: usize|
                    other.spec_nodes().dom().contains(n) && !self.spec_nodes().dom().contains(n) {
                    let n = choose|n: usize|
                        other.spec_nodes().dom().contains(n) && !self.spec_nodes().dom().contains(
                            n,
                        );
                    assert(self.spec_nodes().dom().subset_of(other.spec_nodes().dom().remove(n)));
                    vstd::set_lib::lemma_len_subset(
                        self.spec_nodes().dom(),
                        other.spec_nodes().dom().remove(n),
                    );
                    assert(false);
                }
            }
            assert(self.spec_edges().dom() =~= other.spec_edges().dom()) by {
                assert forall|k: (usize, usize)| #[trigger]
                    self.spec_edges().dom().contains(k) implies other.spec_edges().dom().contains(
                    k,
                ) by {
                    assert(keys@.to_set().contains(k));
                    let j = choose|j: int| 0 <= j < keys@.len() && keys@[j] == k;
                }
                if exists|k: (usize, usize)|
                    other.spec_edges().dom().contains(k) && !self.spec_edges().dom().contains(k) {
                    let k = choose|k: (usize, usize)|
                        other.spec_edges().dom().contains(k) && !self.spec_edges().dom().contains(
                            k,
                        );
                    assert(self.spec_edges().dom().subset_of(other.spec_edges().dom().remove(k)));
                    vstd::set_lib::lemma_len_subset(
                        self.spec_edges().dom(),
                        other.spec_edges().dom().remove(k),
                    );
                    assert(false);
                }
            }
            if V::obeys_eq_spec() && E::obeys_eq_spec() {
                assert forall|n: usize| #[trigger]
                    self.spec_nodes().dom().contains(n) implies opt_eq_spec(
                    self.spec_nodes()[n],
                    other.spec_nodes()[n],
                ) && self.spec_adj()[n].to_multiset() == other.spec_adj()[n].to_multiset() by {
                    assert(ids@.to_set().contains(n));
                    let j = choose|j: int| 0 <= j < ids@.len() && ids@[j] == n;
                }
                assert forall|k: (usize, usize)| #[trigger]
                    self.spec_edges().dom().contains(k) implies opt_eq_spec(
                    self.spec_edges()[k],
                    other.spec_edges()[k],
                ) by {
                    assert(keys@.to_set().contains(k));
                    let j = choose|j: int| 0 <= j < keys@.len() && keys@[j] == k;
                }
            }
        }
        true
    }
}

/// A textual rendering for an edge payload; the graph description emits it
/// as the edge's label.
pub trait EdgeLabel {
    /// The rendered label as a character sequence.
    spec fn spec_label(&self) -> Seq<char>;

    /// The rendered label.
    fn label(&self) -> (s: String)
        ensures
            s@ == self.spec_label(),
    ;
}

/// The decimal rendering of digit `d`, for `d < 10`.
pub open spec fn digit_str(d: nat) -> Seq<char> {
    if d == 0 {
        "0"@
    } else if d == 1 {
        "1"@
    } else if d == 2 {
        "2"@
    } else if d == 3 {
        "3"@
    } else if d == 4 {
        "4"@
    } else if d == 5 {
        "5"@
    } else if d == 6 {
        "6"@
    } else if d == 7 {
        "7"@
    } else if d == 8 {
        "8"@
    } else {
        "9"@
    }
}

/// The decimal rendering of `n`, most significant digit first, without
/// leading zeros (a single zero for `n == 0`).
pub open spec fn spec_digits(n: nat) -> Seq<char>
    decreases n,
{
    if n < 10 {
        digit_str(n)
    } else {
        spec_digits(n / 10) + digit_str(n % 10)
    }
}

/// Appends the decimal rendering of `n`.
pub(crate) fn push_digits(s: &mut String, n: u128)
    ensures
        final(s)@ == old(s)@ + spec_digits(n as nat),
    decreases n,
{
    if n >= 10 {
        proof {
            assert(n / 10 < n) by (nonlinear_arith)
                requires
                    n >= 10,
            ;
        }
        push_digits(s, n / 10);
    }
    let d = n % 10;
    if d == 0 {
        s.append("0");
    } else if d == 1 {
        s.append("1");
    } else if d == 2 {
        s.append("2");
    } else if d == 3 {
        s.append("3");
    } else if d == 4 {
        s.append("4");
    } else if d == 5 {
        s.append("5");
    } else if d == 6 {
        s.append("6");
    } else if d == 7 {
        s.append("7");
    } else if d == 8 {
        s.append("8");
    } else {
        s.append("9");
    }
    proof {
        if n < 10 {
            assert(final(s)@ =~= old(s)@ + spec_digits(n as nat));
        } else {
            assert(final(s)@ =~= old(s)@ + spec_digits(n as nat));
        }
    }
}

/// The opening of the graph description.
pub open spec fn spec_gv_header(directed: bool) -> Seq<char> {
    (if directed {
        "digraph"@
    } else {
        "graph"@
    }) + " G {\n"@
}

/// One line of the graph description: one adjacency entry with the payload
/// label of its canonical edge.
pub open spec fn spec_edge_line<E: EdgeLabel>(
    directed: bool,
    u: usize,
    v: usize,
    p: Option<E>,
) -> Seq<char> {
    "\t"@ + spec_digits(u as nat) + (if directed {
        " -> "@
    } else {
        " -- "@
    }) + spec_digits(v as nat) + " [label='"@ + (match p {
        Option::None => Seq::<char>::empty(),
        Option::Some(e) => e.spec_label(),
    }) + "'];\n"@
}

/// The lines for the first `adj.len()` adjacency entries of node `u`.
pub open spec fn spec_node_lines<V, E: EdgeLabel>(
    g: &AdjListGraph<V, E>,
    u: usize,
    adj: Seq<usize>,
) -> Seq<char>
    decreases adj.len(),
{
    if adj.len() == 0 {
        Seq::<char>::empty()
    } else {
        spec_node_lines(g, u, adj.drop_last()) + spec_edge_line(
            g.spec_directed(),
            u,
            adj.last(),
            g.spec_edges()[spec_canon(g.spec_directed(), u, adj.last())],
        )
    }
}

/// The lines for the listed nodes, in order.
pub open spec fn spec_all_lines<V, E: EdgeLabel>(
    g: &AdjListGraph<V, E>,
    order: Seq<usize>,
) -> Seq<char>
    decreases order.len(),
{
    if order.len() == 0 {
        Seq::<char>::empty()
    } else {
        spec_all_lines(g, order.drop_last()) + spec_node_lines(
            g,
            order.last(),
            g.spec_adj()[order.last()],
        )
    }
}

/// The whole graph description for nodes visited in the given order.
pub open spec fn spec_graphviz<V, E: EdgeLabel>(
    g: &AdjListGraph<V, E>,
    order: Seq<usize>,
) -> Seq<char> {
    spec_gv_header(g.spec_directed()) + spec_all_lines(g, order) + "}\n"@
}

/// Renders the graph as a drawing-tool description: a `digraph G { ... }`
/// or `graph G { ... }` block with one line per adjacency entry, labelled
/// with the edge payload's rendering or empty. The nodes appear in the
/// store's insertion order; the result equals `spec_graphviz` for that
/// order.
pub fn graphviz<V, E: EdgeLabel>(g: &AdjListGraph<V, E>) -> (r: String)
    requires
        g.wf(),
    ensures
        exists|order: Seq<usize>|
            order.no_duplicates() && order.to_set() == g.spec_nodes().dom() && r@
                == #[trigger] spec_graphviz(g, order),
{
    proof {
        g.lemma_wf();
    }
    let mut s = String::new();
    if g.is_directed() {
        s.append("digraph");
    } else {
        s.append("graph");
    }
    s.append(" G {\n");
    proof {
        assert(s@ =~= spec_gv_header(g.spec_directed()));
    }
    let ids = g.nodes_iter();
    let idn = ids.len();
    let mut i: usize = 0;
    proof {
        assert(ids@.take(0) =~= Seq::<usize>::empty());
        assert(s@ =~= spec_gv_header(g.spec_directed()) + spec_all_lines(g, ids@.take(0)));
    }
    while i < idn
        invariant
            g.wf(),
            idn == ids@.len(),
            i <= idn,
            forall|j: int| 0 <= j < idn ==> g.spec_nodes().dom().contains(#[trigger] ids@[j]),
            s@ == spec_gv_header(g.spec_directed()) + spec_all_lines(g, ids@.take(i as int)),
        decreases idn - i,
    {
        let u = ids[i];
        let neigh = g.adj_iter(u);
        let m = neigh.len();
        let mut k: usize = 0;
        proof {
            assert(neigh@.take(0) =~= Seq::<usize>::empty());
            assert(s@ =~= spec_gv_header(g.spec_directed()) + spec_all_lines(g, ids@.take(i as int))
                + spec_node_lines(g, u, neigh@.take(0)));
        }
        while k < m
            invariant
                g.wf(),
                idn == ids@.len(),
                i < idn,
                u == ids@[i as int],
                g.spec_nodes().dom().contains(u),
                g.spec_adj().dom().contains(u),
                neigh@ == g.spec_adj()[u],
                m == neigh@.len(),
                k <= m,
                s@ == spec_gv_header(g.spec_directed()) + spec_all_lines(g, ids@.take(i as int))
                    + spec_node_lines(g, u, neigh@.take(k as int)),
            decreases m - k,
        {
            let v = neigh[k];
            proof {
                g.lemma_wf();
                assert(adj_step(g.spec_adj(), u, v));
            }
            let ghost s0 = s@;
            s.append("\t");
            push_digits(&mut s, u as u128);
            if g.is_directed() {
                s.append(" -> ");
            } else {
                s.append(" -- ");
            }
            push_digits(&mut s, v as u128);
            s.append(" [label='");
            match g.edge_prop(u, v) {
                Option::None => (),
                Option::Some(e) => {
                    let lab = e.label();
                    s.append(lab.as_str());
                },
            }
            s.append("'];\n");
            proof {
                let key = spec_canon(g.spec_directed(), u, v);
                assert(s@ =~= s0 + spec_edge_line(
                    g.spec_directed(),
                    u,
                    v,
                    g.spec_edges()[key],
                ));
                assert(neigh@.take(k + 1).drop_last() =~= neigh@.take(k as int));
                assert(neigh@.take(k + 1).last() == v);
                assert(s@ =~= spec_gv_header(g.spec_directed()) + spec_all_lines(
                    g,
                    ids@.take(i as int),
                ) + spec_node_lines(g, u, neigh@.take(k + 1)));
            }
            k += 1;
        }
        proof {
            assert(neigh@.take(m as int) =~= neigh@);
            assert(ids@.take(i + 1).drop_last() =~= ids@.take(i as int));
            assert(ids@.take(i + 1).last() == u);
            assert(s@ =~= spec_gv_header(g.spec_directed()) + spec_all_lines(g, ids@.take(i + 1)));
        }
        i += 1;
    }
    s.append("}\n");
    proof {
        assert(ids@.take(idn as int) =~= ids@);
        assert(s@ =~= spec_graphviz(g, ids@));
    }
    s
}

/// For any node id, adding the node twice with different payloads leaves
/// the payload equal to the second value, and the adjacency map is
/// unaffected by a payload overwrite.
pub proof fn lemma_payload_overwrite<V>(
    m: Map<usize, Option<V>>,
    a: Map<usize, Seq<usize>>,
    n: usize,
    v1: V,
    v2: V,
)
    ensures
        m.insert(n, Some(v1)).insert(n, Some(v2)) == m.insert(n, Some(v2)),
        m.insert(n, Some(v1)).insert(n, Some(v2))[n] == Some(v2),
        ensure_adj(ensure_adj(a, n), n) == ensure_adj(a, n),
{
    assert(m.insert(n, Some(v1)).insert(n, Some(v2)) =~= m.insert(n, Some(v2)));
}

/// For an undirected graph, after inserting edge `(u, v)`: the canonical
/// edge key exists with the inserted payload, the canonical key is the same
/// for either argument order, and each endpoint appears in the other's
/// adjacency.
pub proof fn lemma_undirected_edge_effect<V, E>(m: GraphModel<V, E>, u: usize, v: usize, e: Option<E>)
    requires
        !m.directed,
    ensures
        step_add_edge(m, u, v, e).edges.dom().contains(spec_canon(false, u, v)),
        step_add_edge(m, u, v, e).edges[spec_canon(false, u, v)] == e,
        spec_canon(false, u, v) == spec_canon(false, v, u),
        step_add_edge(m, u, v, e).adj[u].contains(v),
        step_add_edge(m, u, v, e).adj[v].contains(u),
{
    let m2 = step_add_edge(m, u, v, e);
    let base = ensure_adj(ensure_adj(m.adj, u), v);
    let a1 = base.insert(u, base[u].push(v));
    assert(m2.adj == a1.insert(v, a1[v].push(u)));
    assert(m2.adj[v].last() == u);
    if u != v {
        assert(m2.adj[u] == a1[u]);
        assert(a1[u].last() == v);
    } else {
        assert(m2.adj[u].len() >= 2);
        assert(m2.adj[u][m2.adj[u].len() - 2] == v);
    }
}

/// The node map after adding every listed `(id, payload)` pair in order.
pub open spec fn fold_add_nodes<V>(m: Map<usize, Option<V>>, items: Seq<(usize, V)>) -> Map<
    usize,
    Option<V>,
>
    decreases items.len(),
{
    if items.len() == 0 {
        m
    } else {
        fold_add_nodes(m.insert(items[0].0, Some(items[0].1)), items.drop_first())
    }
}

proof fn lemma_fold_add_nodes_snoc<V>(m: Map<usize, Option<V>>, items: Seq<(usize, V)>, x: (usize, V))
    ensures
        fold_add_nodes(m, items.push(x)) == fold_add_nodes(m, items).insert(x.0, Some(x.1)),
    decreases items.len(),
{
    if items.len() == 0 {
        assert(items.push(x).drop_first() =~= Seq::<(usize, V)>::empty());
        assert(items.push(x)[0] == x);
        assert(fold_add_nodes(m, items.push(x)) == fold_add_nodes(
            m.insert(x.0, Some(x.1)),
            items.push(x).drop_first(),
        ));
        assert(fold_add_nodes(m.insert(x.0, Some(x.1)), Seq::<(usize, V)>::empty()) == m.insert(
            x.0,
            Some(x.1),
        ));
        assert(fold_add_nodes(m, items) == m);
    } else {
        assert(items.push(x)[0] == items[0]);
        assert(items.push(x).drop_first() =~= items.drop_first().push(x));
        assert(fold_add_nodes(m, items.push(x)) == fold_add_nodes(
            m.insert(items[0].0, Some(items[0].1)),
            items.push(x).drop_first(),
        ));
        assert(fold_add_nodes(m, items) == fold_add_nodes(
            m.insert(items[0].0, Some(items[0].1)),
            items.drop_first(),
        ));
        lemma_fold_add_nodes_snoc(m.insert(items[0].0, Some(items[0].1)), items.drop_first(), x);
    }
}

} // verus!
