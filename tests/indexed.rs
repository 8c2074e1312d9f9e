use pairing_graph::indexed::{prim, Graph};

#[derive(Clone, Debug)]
struct Node {
    data: char,
}

#[test]
fn graph() {
    let mut g = Graph::new(true);
    assert_eq!(0, g.num_nodes());
    assert_eq!(0, g.num_edges());

    let v1 = g.add_node(Node { data: 'a' });
    assert_eq!(g.get_node_data(0).data, 'a');
    let v2 = g.add_node(Node { data: 'b' });
    assert_eq!(g.get_node_data(1).data, 'b');
    let v3 = g.add_node(Node { data: 'c' });
    assert_eq!(g.get_node_data(2).data, 'c');
    assert_eq!(3, g.num_nodes());

    g.add_edge(v1, v2, 12);
    assert_eq!(g.get_edge_weight(0, 1), 12);
    assert_eq!(g.has_edge(0, 1), true);
    assert_eq!(1, g.num_edges());

    g.add_edge(v2, v3, 8);
    assert_eq!(g.get_edge_weight(1, 2), 8);
    assert_eq!(g.has_edge(1, 2), true);
    assert_eq!(2, g.num_edges());

    assert_eq!(g.has_edge(2, 0), false);
    assert_eq!(g.has_edge(1, 0), false);

    assert_eq!(g.get_neighbors(0).len(), 1);
    assert_eq!(g.get_neighbors(1).len(), 1);
    assert_eq!(g.get_neighbors(2).len(), 0);

    assert_eq!(g.get_nodes().len(), 3);
}

#[test]
fn undirected_edges_count_once() {
    let mut g: Graph<(), u32> = Graph::new(false);
    let a = g.add_node(());
    let b = g.add_node(());
    let c = g.add_node(());
    g.add_edge(a, b, 3);
    g.add_edge(b, c, 4);
    assert_eq!(g.num_edges(), 2);
    assert!(g.has_edge(b, a));
    assert_eq!(g.get_edge_weight(c, b), 4);
    assert_eq!(g.get_edges().len(), 2);
}

#[test]
fn prim_joins_every_node_of_a_connected_graph() {
    let mut g: Graph<(), usize> = Graph::new(false);
    for _ in 0..4 {
        g.add_node(());
    }
    g.add_edge(0, 1, 1);
    g.add_edge(1, 2, 2);
    g.add_edge(2, 3, 1);
    g.add_edge(3, 0, 9);
    let tree = prim(&g);
    assert_eq!(tree.len(), 3);
    let total: usize = tree.iter().map(|e| e.w).sum();
    assert_eq!(total, 4);
    assert!(g.random_node() < 4);
}
