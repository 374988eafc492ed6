use graph::algorithms::{
    bfs, bfs_order, connected_components, dfs, dfs_from, dfs_order, kruskal, prim, DFSVisitor,
    Edge, MstError, Weight,
};
use graph::disjoint_set::DisjointSet;
use graph::graph::AdjListGraph;

fn nine_node_graph() -> AdjListGraph<(), Edge> {
    let mut g: AdjListGraph<(), Edge> = AdjListGraph::new(false);
    g.add_edge_with_prop(0, 1, Edge::new(4));
    g.add_edge_with_prop(1, 2, Edge::new(8));
    g.add_edge_with_prop(2, 3, Edge::new(7));
    g.add_edge_with_prop(2, 5, Edge::new(5));
    g.add_edge_with_prop(3, 4, Edge::new(9));
    g.add_edge_with_prop(3, 5, Edge::new(20));
    g.add_edge_with_prop(4, 5, Edge::new(19));
    g.add_edge_with_prop(5, 6, Edge::new(3));
    g.add_edge_with_prop(6, 7, Edge::new(1));
    g.add_edge_with_prop(7, 8, Edge::new(18));
    g.add_edge_with_prop(6, 8, Edge::new(17));
    g.add_edge_with_prop(8, 2, Edge::new(2));
    g.add_edge_with_prop(7, 0, Edge::new(16));
    g.add_edge_with_prop(1, 7, Edge::new(11));
    g
}

fn total_weight(g: &AdjListGraph<(), Edge>) -> isize {
    let mut sum: isize = 0;
    for (u, v) in g.edges_iter() {
        if let Some(e) = g.edge_prop(u, v) {
            sum += e.weight();
        }
    }
    sum
}

#[test]
fn mst_test() {
    let g = nine_node_graph();

    let mut mst: AdjListGraph<(), Edge> = AdjListGraph::new(false);
    mst.add_edge_with_prop(0, 1, Edge::new(4));
    mst.add_edge_with_prop(2, 3, Edge::new(7));
    mst.add_edge_with_prop(2, 5, Edge::new(5));
    mst.add_edge_with_prop(3, 4, Edge::new(9));
    mst.add_edge_with_prop(5, 6, Edge::new(3));
    mst.add_edge_with_prop(6, 7, Edge::new(1));
    mst.add_edge_with_prop(8, 2, Edge::new(2));
    mst.add_edge_with_prop(1, 2, Edge::new(8));

    let pmst = prim(&g).unwrap();
    let kmst = kruskal(&g).unwrap();
    assert!(mst.graph_eq(&pmst));
    assert!(mst.graph_eq(&kmst));
}

#[test]
fn mst_error_test() {
    let directed_graph: AdjListGraph<(), Edge> = AdjListGraph::new(true);
    prim(&directed_graph).err();
    kruskal(&directed_graph).err();

    let mut disconnected_graph: AdjListGraph<(), Edge> = AdjListGraph::new(false);
    disconnected_graph.add_edge_with_prop(0, 1, Edge::new(1));
    disconnected_graph.add_edge_with_prop(0, 2, Edge::new(2));
    disconnected_graph.add_edge_with_prop(1, 2, Edge::new(3));
    disconnected_graph.add_node_with_prop(3, ());
    prim(&disconnected_graph).err();
    kruskal(&disconnected_graph).err();
}

#[test]
fn mst_nine_node_scenario() {
    // The 9-node scenario: both algorithms yield the expected spanning tree
    // with total weight 39.
    let g = nine_node_graph();
    let pmst = prim(&g).unwrap();
    let kmst = kruskal(&g).unwrap();
    assert_eq!(pmst.size(), 9);
    assert_eq!(kmst.size(), 9);
    assert_eq!(pmst.num_edges(), 8);
    assert_eq!(kmst.num_edges(), 8);
    assert_eq!(total_weight(&pmst), 39);
    assert_eq!(total_weight(&kmst), 39);
    assert!(pmst.graph_eq(&kmst));
}

#[test]
fn mst_disconnected_scenario() {
    // The same graph with node 3 isolated: both algorithms report the
    // disconnected-graph error rather than a partial tree.
    let mut g: AdjListGraph<(), Edge> = AdjListGraph::new(false);
    g.add_edge_with_prop(0, 1, Edge::new(4));
    g.add_edge_with_prop(1, 2, Edge::new(8));
    g.add_edge_with_prop(2, 5, Edge::new(5));
    g.add_edge_with_prop(4, 5, Edge::new(19));
    g.add_edge_with_prop(5, 6, Edge::new(3));
    g.add_edge_with_prop(6, 7, Edge::new(1));
    g.add_edge_with_prop(7, 8, Edge::new(18));
    g.add_edge_with_prop(6, 8, Edge::new(17));
    g.add_edge_with_prop(8, 2, Edge::new(2));
    g.add_edge_with_prop(7, 0, Edge::new(16));
    g.add_edge_with_prop(1, 7, Edge::new(11));
    g.add_node(3);
    assert_eq!(prim(&g).err(), Some(MstError::Disconnected));
    assert_eq!(kruskal(&g).err(), Some(MstError::Disconnected));
}

#[test]
fn mst_directed_precondition() {
    // Both algorithms reject a directed graph before doing any work.
    let mut g: AdjListGraph<(), Edge> = AdjListGraph::new(true);
    g.add_edge_with_prop(0, 1, Edge::new(1));
    assert_eq!(prim(&g).err(), Some(MstError::NotUndirected));
    assert_eq!(kruskal(&g).err(), Some(MstError::NotUndirected));
}

#[test]
fn mst_single_node_and_empty() {
    let empty: AdjListGraph<(), Edge> = AdjListGraph::new(false);
    let t = prim(&empty).unwrap();
    assert_eq!(t.size(), 0);
    assert_eq!(t.num_edges(), 0);
    let t2 = kruskal(&empty).unwrap();
    assert_eq!(t2.size(), 0);

    let mut single: AdjListGraph<(), Edge> = AdjListGraph::new(false);
    single.add_node(42);
    let t3 = prim(&single).unwrap();
    assert_eq!(t3.size(), 1);
    assert_eq!(t3.num_edges(), 0);
    let t4 = kruskal(&single).unwrap();
    assert_eq!(t4.size(), 1);
    assert_eq!(t4.num_edges(), 0);
}

struct Recorder {
    log: Vec<(usize, Option<usize>)>,
}

impl DFSVisitor for Recorder {
    fn visit(&mut self, node: usize, parent: Option<usize>) {
        self.log.push((node, parent));
    }
}

fn traversal_graph() -> AdjListGraph<(), ()> {
    // Component {0, 1, 2, 4} plus unreachable node 3.
    let mut g: AdjListGraph<(), ()> = AdjListGraph::new(false);
    g.add_edge(0, 1);
    g.add_edge(1, 2);
    g.add_edge(1, 4);
    g.add_node(3);
    g
}

fn check_traversal(order: &[(usize, Option<usize>)], source: usize, expected: &[usize]) {
    // Visits every node reachable from the source exactly once, the source
    // first with no parent, and nothing else.
    assert_eq!(order[0], (source, None));
    let mut seen: Vec<usize> = Vec::new();
    for &(n, p) in order.iter() {
        assert!(!seen.contains(&n));
        if n != source {
            let parent = p.unwrap();
            assert!(seen.contains(&parent));
        }
        seen.push(n);
    }
    let mut sorted = seen.clone();
    sorted.sort();
    assert_eq!(sorted, expected.to_vec());
}

#[test]
fn dfs_visits_reachable_once() {
    let g = traversal_graph();
    let order = dfs_order(&g, 0);
    check_traversal(&order, 0, &[0, 1, 2, 4]);
    // exact preorder for this graph: 0, then 1, then 1's children 2 then 4
    assert_eq!(
        order,
        vec![(0, None), (1, Some(0)), (2, Some(1)), (4, Some(1))]
    );
}

#[test]
fn bfs_visits_reachable_once() {
    let g = traversal_graph();
    let order = bfs_order(&g, 1);
    check_traversal(&order, 1, &[0, 1, 2, 4]);
    // exact level order from 1: neighbors in adjacency order
    assert_eq!(
        order,
        vec![(1, None), (0, Some(1)), (2, Some(1)), (4, Some(1))]
    );
}

#[test]
fn dfs_visitor_from_minimum_node() {
    let g = traversal_graph();
    let mut v = Recorder { log: Vec::new() };
    let order = dfs(&g, &mut v);
    // the deterministic source is the minimum node id
    assert_eq!(v.log, order);
    assert_eq!(v.log[0], (0, None));
    assert_eq!(v.log.len(), 4);

    let empty: AdjListGraph<(), ()> = AdjListGraph::new(false);
    let mut v2 = Recorder { log: Vec::new() };
    let order2 = dfs(&empty, &mut v2);
    assert!(order2.is_empty());
    assert!(v2.log.is_empty());
}

#[test]
fn bfs_visitor_matches_order() {
    let g = traversal_graph();
    let mut v = Recorder { log: Vec::new() };
    let r1 = bfs(&g, &mut v, 2);
    assert_eq!(v.log, r1);
    assert_eq!(r1, bfs_order(&g, 2));
    let mut v2 = Recorder { log: Vec::new() };
    let r2 = dfs_from(&g, &mut v2, 2);
    assert_eq!(v2.log, r2);
    assert_eq!(r2, dfs_order(&g, 2));
}

#[test]
fn traversal_disciplines_differ() {
    // On a diamond, depth-first preorder backtracks to reach the last node
    // through the deepest discovered neighbor, while level order reaches it
    // through the earliest; the parents differ.
    let mut g: AdjListGraph<(), ()> = AdjListGraph::new(false);
    g.add_edge(0, 1);
    g.add_edge(0, 2);
    g.add_edge(1, 3);
    g.add_edge(2, 3);
    assert_eq!(
        dfs_order(&g, 0),
        vec![(0, None), (1, Some(0)), (3, Some(1)), (2, Some(3))]
    );
    assert_eq!(
        bfs_order(&g, 0),
        vec![(0, None), (1, Some(0)), (2, Some(0)), (3, Some(1))]
    );
}

#[test]
fn connected_components_partition() {
    // Three disjoint subgraphs yield exactly three groups whose member sets
    // partition all nodes.
    let mut g: AdjListGraph<(), ()> = AdjListGraph::new(false);
    g.add_edge(0, 1);
    g.add_edge(1, 2);
    g.add_edge(0, 2);
    g.add_edge(3, 4);
    g.add_node(5);
    let groups = connected_components(&g);
    assert_eq!(groups.len(), 3);
    let mut all: Vec<usize> = Vec::new();
    for (_rep, members) in groups.iter() {
        assert!(!members.is_empty());
        for &m in members.iter() {
            assert!(!all.contains(&m));
            all.push(m);
        }
    }
    all.sort();
    assert_eq!(all, vec![0, 1, 2, 3, 4, 5]);
    // adjacent nodes share a group
    for (_rep, members) in groups.iter() {
        if members.contains(&0) {
            assert!(members.contains(&1) && members.contains(&2));
            assert_eq!(members.len(), 3);
        }
        if members.contains(&3) {
            assert!(members.contains(&4));
            assert_eq!(members.len(), 2);
        }
        if members.contains(&5) {
            assert_eq!(members.len(), 1);
        }
    }
}

#[test]
fn disjoint_set_union_find() {
    let mut ds = DisjointSet::new();
    assert!(!ds.contains(1));
    ds.add_set(1);
    ds.add_set(2);
    ds.add_set(3);
    assert!(ds.contains(1));
    assert!(!ds.contains(9));
    assert_eq!(ds.find(1), 1);
    assert_eq!(ds.find(2), 2);
    ds.union(1, 2);
    assert_eq!(ds.find(2), 1);
    assert_eq!(ds.find(1), 1);
    assert_eq!(ds.find(3), 3);
    ds.union(3, 1);
    assert_eq!(ds.find(1), 3);
    assert_eq!(ds.find(2), 3);
    assert_eq!(ds.find(3), 3);
}

#[test]
fn edge_weight_accessors() {
    let mut e = Edge::new(4);
    assert_eq!(e.weight(), 4);
    e.set_weight(-7);
    assert_eq!(e.weight(), -7);
    assert_eq!(e, Edge::new(-7));
}
