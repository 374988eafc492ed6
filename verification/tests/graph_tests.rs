use graph::algorithms::Edge;
use graph::graph::graphviz;
use graph::graph::AdjListGraph;
use std::collections::HashMap;

fn check<V, E>(
    g: &AdjListGraph<V, E>,
    nodes: &HashMap<usize, Option<V>>,
    edges: &HashMap<(usize, usize), Option<E>>,
    adj_list: &HashMap<usize, Vec<usize>>,
) where
    V: PartialEq + std::fmt::Debug,
    E: PartialEq + std::fmt::Debug,
{
    assert_eq!(nodes.len(), g.size());

    assert_eq!(nodes.len(), g.nodes_iter().len());
    for n in g.nodes_iter() {
        assert!(nodes.contains_key(&n));
        assert_eq!(&nodes[&n], g.node_prop(n));
    }

    assert_eq!(edges.len(), g.edges_iter().len());
    for e in g.edges_iter() {
        let (u, v) = e;
        assert!(edges.contains_key(&e));
        assert_eq!(&edges[&e], g.edge_prop(u, v));
    }

    assert_eq!(g.nodes_iter().len(), adj_list.len());
    for u in g.nodes_iter() {
        assert_eq!(adj_list[&u], g.adj_iter(u));
    }
}

#[test]
fn graph_creation_test() {
    let mut nodes: HashMap<usize, Option<usize>> = HashMap::new();
    let mut edges: HashMap<(usize, usize), Option<usize>> = HashMap::new();
    let mut adj_list: HashMap<usize, Vec<usize>> = HashMap::new();
    let mut g: AdjListGraph<usize, usize> = AdjListGraph::new(true);

    // node 0 with payload 1
    if !nodes.contains_key(&0) {
        adj_list.insert(0, Vec::new());
    }
    nodes.insert(0, Some(1usize));
    g.add_node_with_prop(0, 1usize);
    check(&g, &nodes, &edges, &adj_list);

    // node 2 with payload 2
    if !nodes.contains_key(&2) {
        adj_list.insert(2, Vec::new());
    }
    nodes.insert(2, Some(2));
    g.add_node_with_prop(2, 2);
    check(&g, &nodes, &edges, &adj_list);

    // node 3 without payload
    if !nodes.contains_key(&3) {
        adj_list.insert(3, Vec::new());
    }
    nodes.insert(3, None);
    g.add_node(3);
    check(&g, &nodes, &edges, &adj_list);

    // edge (0, 2) with payload 6
    adj_list.get_mut(&0).unwrap().push(2);
    edges.insert((0, 2), Some(6usize));
    g.add_edge_with_prop(0, 2, 6usize);
    check(&g, &nodes, &edges, &adj_list);

    // edge (2, 0) without payload
    adj_list.get_mut(&2).unwrap().push(0);
    edges.insert((2, 0), None);
    g.add_edge(2, 0);
    check(&g, &nodes, &edges, &adj_list);

    // edge (3, 0) with payload 7
    adj_list.get_mut(&3).unwrap().push(0);
    edges.insert((3, 0), Some(7));
    g.add_edge_with_prop(3, 0, 7);
    check(&g, &nodes, &edges, &adj_list);

    // edge (0, 3) without payload
    adj_list.get_mut(&0).unwrap().push(3);
    edges.insert((0, 3), None);
    g.add_edge(0, 3);
    check(&g, &nodes, &edges, &adj_list);

    // edge (1, 2) without payload; creates node 1
    if !nodes.contains_key(&1) {
        adj_list.insert(1, Vec::new());
        nodes.insert(1, None);
    }
    adj_list.get_mut(&1).unwrap().push(2);
    edges.insert((1, 2), None);
    g.add_edge(1, 2);
    check(&g, &nodes, &edges, &adj_list);

    // Duplicate edge
    adj_list.get_mut(&3).unwrap().push(0);
    edges.insert((3, 0), Some(7));
    g.add_edge_with_prop(3, 0, 7);
    check(&g, &nodes, &edges, &adj_list);

    // Change edge data
    edges.insert((3, 0), Some(6));
    adj_list.get_mut(&3).unwrap().push(0);
    g.add_edge_with_prop(3, 0, 6);
    check(&g, &nodes, &edges, &adj_list);

    // Duplicate node
    nodes.insert(0, Some(1));
    g.add_node_with_prop(0, 1);
    check(&g, &nodes, &edges, &adj_list);

    // Change node data
    nodes.insert(0, Some(2));
    g.add_node_with_prop(0, 2);
    check(&g, &nodes, &edges, &adj_list);
}

#[test]
fn graph_copy_test() {
    let mut nodes: HashMap<usize, Option<usize>> = HashMap::new();
    let mut edges: HashMap<(usize, usize), Option<usize>> = HashMap::new();
    let mut adj_list: HashMap<usize, Vec<usize>> = HashMap::new();
    let mut g: AdjListGraph<usize, usize> = AdjListGraph::new(true);
    let mut copy: AdjListGraph<usize, usize> = AdjListGraph::new(true);

    g.add_node_with_prop(0, 1usize);
    g.copy_node_to(&mut copy, 0);
    nodes.insert(0usize, Some(1usize));
    adj_list.insert(0, Vec::new());
    check(&g, &nodes, &edges, &adj_list);
    check(&copy, &nodes, &edges, &adj_list);

    g.add_edge_with_prop(0, 1, 2usize);
    g.copy_edge_to(&mut copy, 0, 1);
    nodes.insert(1, None);
    edges.insert((0, 1), Some(2usize));
    adj_list.insert(0, vec![1]);
    adj_list.insert(1, Vec::new());
    check(&g, &nodes, &edges, &adj_list);
    check(&copy, &nodes, &edges, &adj_list);

    g.add_node(2);
    g.copy_node_to(&mut copy, 2);
    nodes.insert(2, None);
    adj_list.insert(2, Vec::new());
    check(&g, &nodes, &edges, &adj_list);
    check(&copy, &nodes, &edges, &adj_list);

    g.add_edge(2, 3);
    g.copy_edge_to(&mut copy, 2, 3);
    nodes.insert(3, None);
    edges.insert((2, 3), None);
    adj_list.insert(2, vec![3]);
    adj_list.insert(3, Vec::new());
    check(&g, &nodes, &edges, &adj_list);
    check(&copy, &nodes, &edges, &adj_list);

    // Overwrite property
    copy.add_node_with_prop(0, 2);
    copy.copy_node_to(&mut g, 0);
    nodes.insert(0, Some(2));
    check(&g, &nodes, &edges, &adj_list);
    check(&copy, &nodes, &edges, &adj_list);

    copy.add_edge_with_prop(0, 1, 3usize);
    copy.copy_edge_to(&mut g, 0, 1);
    edges.insert((0, 1), Some(3));
    adj_list.insert(0, vec![1, 1]);
    check(&g, &nodes, &edges, &adj_list);
    check(&copy, &nodes, &edges, &adj_list);
}

#[test]
fn undirected_graph_test() {
    let mut g: AdjListGraph<(), ()> = AdjListGraph::new(false);
    let mut nodes: HashMap<usize, Option<()>> = HashMap::new();
    let mut edges: HashMap<(usize, usize), Option<()>> = HashMap::new();
    let mut adj_list: HashMap<usize, Vec<usize>> = HashMap::new();

    g.add_edge(0, 1);
    nodes.insert(0, None);
    nodes.insert(1, None);
    edges.insert((0, 1), None);
    adj_list.insert(0, vec![1]);
    adj_list.insert(1, vec![0]);
    check(&g, &nodes, &edges, &adj_list);
}

#[test]
fn payload_overwrite_keeps_adjacency() {
    // Adding a node twice with different payloads leaves the second value;
    // adjacency is unaffected by the overwrite.
    let mut g: AdjListGraph<usize, ()> = AdjListGraph::new(true);
    g.add_edge(7, 8);
    g.add_node_with_prop(7, 10);
    g.add_node_with_prop(7, 20);
    assert_eq!(g.node_prop(7), &Some(20));
    assert_eq!(g.adj_iter(7), vec![8]);
    assert_eq!(g.size(), 2);
}

#[test]
fn undirected_edge_is_symmetric() {
    // After add_edge(u, v) on an undirected graph, the edge is visible from
    // both argument orders, both adjacencies contain the other endpoint,
    // and the payload is retrievable either way.
    let mut g: AdjListGraph<(), usize> = AdjListGraph::new(false);
    g.add_edge_with_prop(4, 2, 99);
    assert!(g.contains_edge(4, 2));
    assert!(g.contains_edge(2, 4));
    assert!(g.adj_iter(4).contains(&2));
    assert!(g.adj_iter(2).contains(&4));
    assert_eq!(g.edge_prop(4, 2), g.edge_prop(2, 4));
    assert_eq!(g.edge_prop(2, 4), &Some(99));
    assert_eq!(g.num_edges(), 1);
}

#[test]
fn graph_eq_ignores_adjacency_order() {
    // Two undirected graphs built from the same edges in different orders
    // are equal: adjacency is compared as a multiset per node.
    let mut a: AdjListGraph<(), usize> = AdjListGraph::new(false);
    a.add_edge_with_prop(0, 1, 5);
    a.add_edge_with_prop(0, 2, 6);
    let mut b: AdjListGraph<(), usize> = AdjListGraph::new(false);
    b.add_edge_with_prop(0, 2, 6);
    b.add_edge_with_prop(0, 1, 5);
    assert!(a.graph_eq(&b));

    let mut c: AdjListGraph<(), usize> = AdjListGraph::new(false);
    c.add_edge_with_prop(0, 1, 5);
    c.add_edge_with_prop(0, 2, 7);
    assert!(!a.graph_eq(&c));
}

#[test]
fn graphviz_directed_output() {
    let mut g: AdjListGraph<(), Edge> = AdjListGraph::new(true);
    g.add_edge_with_prop(0, 1, Edge::new(4));
    let s = graphviz(&g);
    assert_eq!(s, "digraph G {\n\t0 -> 1 [label='4'];\n}\n");
}

#[test]
fn graphviz_undirected_output() {
    let mut g: AdjListGraph<(), Edge> = AdjListGraph::new(false);
    g.add_edge_with_prop(1, 0, Edge::new(-12));
    let s = graphviz(&g);
    assert_eq!(s, "graph G {\n\t1 -- 0 [label='-12'];\n\t0 -- 1 [label='-12'];\n}\n");
}

#[test]
fn graphviz_unlabelled_edge() {
    let mut g: AdjListGraph<(), Edge> = AdjListGraph::new(true);
    g.add_edge(5, 10);
    let s = graphviz(&g);
    assert_eq!(s, "digraph G {\n\t5 -> 10 [label=''];\n}\n");
}
