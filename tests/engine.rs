use pairing_graph::engine::{dijkstra, prim, GraphEngine, UNREACHABLE};
use petgraph::visit::EdgeRef;

fn adjacency_of(gr: &petgraph::Graph<(), usize>) -> Vec<Vec<(usize, usize)>> {
    gr.node_indices()
        .map(|n| gr.edges(n).map(|e| (e.target().index(), *e.weight())).collect())
        .collect()
}

fn lists(n: usize, edges: &[(usize, usize, usize)]) -> Vec<Vec<(usize, usize)>> {
    let mut adj = vec![Vec::new(); n];
    for &(u, v, w) in edges {
        adj[u].push((v, w));
    }
    adj
}

#[test]
fn test_shortest_path_k4() {
    // K_4 with edge weights of 1, taken from petgraph docs
    let gr = petgraph::Graph::<(), usize>::from_edges(&[
        (0, 1, 1), (0, 2, 1), (0, 3, 1),
        (1, 2, 1), (1, 3, 1),
        (2, 3, 1),
    ]);
    let mut my_gr = GraphEngine::new(adjacency_of(&gr));
    for e in gr.edge_indices() {
        let (src, dst) = gr.edge_endpoints(e).unwrap();
        assert_eq!(my_gr.shortest_path_len(src.index(), dst.index()), 1);
    }
}

#[test]
fn test_shortest_path_c6() {
    // C_6 with one heavy edge
    let gr = petgraph::Graph::<(), usize>::from_edges(&[
        (0, 1, 1), (1, 2, 1), (2, 3, 1), (3, 4, 1), (4, 5, 1), (5, 0, 10),
    ]);
    let mut my_gr = GraphEngine::new(adjacency_of(&gr));
    for i in 1..6 {
        assert_eq!(my_gr.shortest_path_len(0, i), i);
    }
}

#[test]
fn test_mst_c6() {
    // C_6 with one heavy edge
    let gr = petgraph::Graph::<(), usize>::from_edges(&[
        (0, 1, 1), (1, 2, 1), (2, 3, 1), (3, 4, 1), (4, 5, 1), (5, 0, 10),
    ]);
    let mut my_gr = GraphEngine::new(adjacency_of(&gr));
    let mst = my_gr.spanning_tree();
    assert_eq!(mst.len(), 6); // we better have 6 verticies
    let mut found_root = false;
    for (i, adj) in mst.iter().enumerate() {
        if adj.len() == 0 {
            assert!(!found_root);
            found_root = true;
        } else {
            let parent = *adj.first().unwrap();
            if i == 5 {
                assert!(parent == 4);
            } else if i == 0 {
                assert!(parent == 1);
            } else {
                assert!(parent == (i + 1) % 6 || parent == (i - 1) % 6);
            }
        }
    }
}

#[test]
fn dijkstra_on_six_vertices() {
    let adj = lists(6, &[
        (0, 1, 2), (0, 3, 4), (1, 2, 8), (1, 3, 6), (1, 4, 3),
        (2, 5, 5), (3, 4, 1), (4, 2, 9), (4, 5, 7),
    ]);
    assert_eq!(dijkstra(&adj, 0), vec![0, 2, 10, 4, 5, 12]);
    let mut engine = GraphEngine::new(adj);
    assert_eq!(engine.shortest_path_len(0, 5), 12);
    // a second query from the same source reads the cache
    assert_eq!(engine.shortest_path_len(0, 2), 10);
    assert_eq!(engine.shortest_path_len(3, 5), 8);
}

#[test]
fn prim_on_cycle_with_one_heavy_edge() {
    let mut edges = Vec::new();
    for i in 0..6 {
        let w = if i == 5 { 10 } else { 1 };
        edges.push((i, (i + 1) % 6, w));
        edges.push(((i + 1) % 6, i, w));
    }
    let adj = lists(6, &edges);
    let parent = prim(&adj, 0);
    let mut total = 0;
    for (v, p) in parent.iter().enumerate() {
        if let Some(p) = *p {
            let w = adj[p].iter().find(|e| e.0 == v).unwrap().1;
            assert!(w != 10);
            total += w;
        }
    }
    assert_eq!(parent[0], None);
    assert_eq!(total, 5);
    let mut engine = GraphEngine::new(adj);
    let tree = engine.spanning_tree();
    assert_eq!(tree.iter().filter(|l| l.is_empty()).count(), 1);
}

#[test]
fn disconnected_vertices_are_unreachable() {
    let adj = lists(5, &[(0, 1, 3), (1, 0, 3), (1, 2, 4), (3, 4, 1), (4, 3, 1)]);
    let d = dijkstra(&adj, 0);
    assert_eq!(d, vec![0, 3, 7, UNREACHABLE, UNREACHABLE]);
    let mut engine = GraphEngine::new(adj);
    assert_eq!(engine.shortest_path_len(4, 0), UNREACHABLE);
    assert_eq!(engine.shortest_path_len(4, 3), 1);
    let tree = engine.spanning_tree();
    assert_eq!(tree, vec![vec![], vec![0], vec![1], vec![], vec![]]);
}

#[test]
fn empty_graph_has_empty_tree() {
    let mut engine = GraphEngine::new(Vec::new());
    assert!(engine.spanning_tree().is_empty());
}

#[test]
fn saturating_relaxation_does_not_wrap() {
    let adj = lists(3, &[(0, 1, usize::MAX - 1), (1, 2, 5)]);
    assert_eq!(dijkstra(&adj, 0), vec![0, usize::MAX - 1, UNREACHABLE]);
}
