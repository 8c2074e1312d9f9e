use pairing_graph::list::{djikstra, topo_sort, Graph, NodeIndex};

fn chain() -> (Graph<&'static str>, Vec<NodeIndex>) {
    let mut g = Graph::new();
    let a = g.add_node("a");
    let b = g.add_node("b");
    let c = g.add_node("c");
    let d = g.add_node("d");
    g.add_edge(a, b, 4);
    g.add_edge(b, c, 1);
    g.add_edge(a, c, 7);
    g.add_edge(c, d, 2);
    (g, vec![a, b, c, d])
}

#[test]
fn djikstra_finds_shorter_detour() {
    let (g, n) = chain();
    assert_eq!(djikstra(&g, n[0], n[2]), 5);
    assert_eq!(djikstra(&g, n[0], n[3]), 7);
    assert_eq!(djikstra(&g, n[0], n[0]), 0);
    assert_eq!(djikstra(&g, n[3], n[0]), usize::MAX);
}

#[test]
fn nodes_and_neighbors() {
    let (g, n) = chain();
    let all = g.get_all_nodes();
    assert_eq!(all, n);
    let out = g.get_neighbors(n[0]);
    assert_eq!(out.len(), 2);
    assert_eq!(out[0].edge.end, n[1]);
    assert_eq!(out[1].edge.weight, 7);
}

#[test]
fn topo_sort_orders_edges_forward() {
    let (g, n) = chain();
    let order = topo_sort(&g).unwrap();
    assert_eq!(order, n);
}

#[test]
fn topo_sort_rejects_cycle() {
    let (mut g, n) = chain();
    g.add_edge(n[3], n[1], 1);
    assert_eq!(topo_sort(&g), None);
}
