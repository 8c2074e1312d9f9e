use pairing_graph::kruskal::kruskal;
use pairing_graph::matrix::{floyd_warshall, prim, Graph};
use std::collections::HashSet;

#[test]
fn graph_test() {
    let mut graph = Graph::new();
    assert_eq!(0, graph.size());

    let a = graph.add_vertex("a");
    let b = graph.add_vertex("b");
    let c = graph.add_vertex("c");
    assert_eq!(3, graph.size());

    graph.add_edge(a, b, 1);
    graph.add_edge(a, c, 2);
    assert!(graph.has_edge(a, b));
    assert!(graph.has_edge(a, c));
    assert!(!graph.has_edge(b, c));
    assert!(!graph.has_edge(c, a));

    assert!(!graph.has_edge(a, a));
    graph.add_edge(a, a, 0);
    assert!(graph.has_edge(a, a));
    assert_eq!(graph.remove_edge(a, a), 0);

    assert_eq!(graph.vertex_data(b), &"b");
    assert_eq!(graph.weight(a, b), &1);

    let mut edges = HashSet::new();
    let mut it = graph.edges();
    while let Some(e) = it.next() {
        edges.insert(e);
    }
    assert_eq!(edges, vec![(a, b), (a, c)].into_iter().collect());

    let mut data = HashSet::new();
    let mut vs = graph.vertices();
    while let Some(v) = vs.next() {
        data.insert(graph.vertex_data(v));
    }
    assert_eq!(data, vec![&"a", &"b", &"c"].into_iter().collect());
    assert_eq!(graph.remove_vertex(c), "c");
    let mut data = HashSet::new();
    let mut vs = graph.vertices();
    while let Some(v) = vs.next() {
        data.insert(graph.vertex_data(v));
    }
    assert_eq!(data, vec![&"a", &"b"].into_iter().collect());
    assert_eq!(graph.size(), 2);
}

#[test]
fn bidirectional_edge_and_vertex_removal_shift() {
    let mut g = Graph::new();
    let a = g.add_vertex('a');
    let b = g.add_vertex('b');
    let c = g.add_vertex('c');
    g.add_bidi_edge(a, c, 7u32);
    assert_eq!(g.weight(c, a), &7);
    assert_eq!(g.remove_vertex(b), 'b');
    // c moved down to index 1
    assert!(g.has_edge(0, 1));
    assert!(g.has_edge(1, 0));
    assert_eq!(*g.vertex_data(1), 'c');
}

#[test]
fn minimum_spanning_tree_test() {
    let mut graph = Graph::new();
    let a = graph.add_vertex(());
    let b = graph.add_vertex(());
    let c = graph.add_vertex(());
    let d = graph.add_vertex(());
    let e = graph.add_vertex(());
    let f = graph.add_vertex(());
    let g = graph.add_vertex(());

    graph.add_bidi_edge(a, b, 4);
    graph.add_bidi_edge(a, c, 9);

    graph.add_bidi_edge(b, c, 9);
    graph.add_bidi_edge(b, d, 8);
    graph.add_bidi_edge(b, e, 10);

    graph.add_bidi_edge(c, d, 2);
    graph.add_bidi_edge(c, f, 1);

    graph.add_bidi_edge(d, e, 7);
    graph.add_bidi_edge(d, f, 9);

    graph.add_bidi_edge(e, f, 5);
    graph.add_bidi_edge(e, g, 6);

    graph.add_bidi_edge(f, g, 2);

    let result = prim(&graph);

    // It's arbitrary whether (u,v) or (v,u) appears in the tree (because
    // the graph is treated as undirected).
    fn has_edge(from: usize, to: usize, weight: usize, tree: &Vec<(usize, usize, usize)>) -> bool {
        tree.iter().any(|&(u, v, w)| (u == from && v == to || u == to && v == from) && w == weight)
    }

    match result {
        Some(tree) => {
            assert_eq!(tree.len(), graph.size() - 1);
            assert_eq!(22, tree.iter().map(|&(_, _, w)| w).sum::<usize>());
            assert!(has_edge(a, b, 4, &tree));
            assert!(has_edge(b, d, 8, &tree));
            assert!(has_edge(d, c, 2, &tree));
            assert!(has_edge(c, f, 1, &tree));
            assert!(has_edge(f, e, 5, &tree));
            assert!(has_edge(f, g, 2, &tree));
        }
        None => assert!(false),
    };
}

#[test]
fn prim_reports_unreachable_vertex() {
    let mut graph = Graph::new();
    let a = graph.add_vertex(());
    let b = graph.add_vertex(());
    graph.add_vertex(());
    graph.add_edge(b, a, 3usize);
    assert_eq!(prim(&graph), None);
    let empty: Graph<(), usize> = Graph::new();
    assert_eq!(prim(&empty), Some(vec![]));
}

#[test]
fn all_pairs_shortest_paths_test() {
    let mut g = Graph::<&str, isize>::new();
    let a = g.add_vertex("a");
    let b = g.add_vertex("b");
    let c = g.add_vertex("c");
    let d = g.add_vertex("d");
    let e = g.add_vertex("e");

    g.add_edge(a, b, 3);

    g.add_edge(b, d, 5);
    g.add_edge(b, c, 12);

    g.add_edge(c, a, 4);
    g.add_edge(c, d, -1);

    g.add_edge(d, a, 2);
    g.add_edge(d, b, -4);

    g.add_edge(e, c, 100);

    let result = floyd_warshall(&g);

    assert!(result.is_path(a, b));
    assert!(result.is_path(e, c));
    assert!(!result.is_path(c, c));
    assert!(!result.is_path(c, e));

    assert_eq!(result.path_distance(a, c), Some(15));
    assert_eq!(result.path_distance(c, e), None);

    assert_eq!(result.path(c, b), vec![(c, d, -1), (d, b, -4)]);
    assert!(result.path(c, e).is_empty());

    let result_matrix = result.to_distance_matrix();

    assert_eq!(result_matrix, vec![
        vec![None,      Some(3),  Some(15),  Some(8),   None],
        vec![Some(7),   None,     Some(12),  Some(5),   None],
        vec![Some(1),   Some(-5), None,      Some(-1),  None],
        vec![Some(2),   Some(-4), Some(8),   None,      None],
        vec![Some(101), Some(95), Some(100), Some(99),  None],
    ]);
}

#[test]
fn distances_stay_within_isize() {
    let mut g = Graph::<(), isize>::new();
    let a = g.add_vertex(());
    let b = g.add_vertex(());
    let c = g.add_vertex(());
    g.add_edge(a, b, isize::MAX);
    g.add_edge(b, c, 5);
    let result = floyd_warshall(&g);
    assert_eq!(result.path_distance(a, c), Some(isize::MAX));
}

#[test]
fn kruskal_picks_light_edges() {
    let mut graph = Graph::new();
    for _ in 0..7 {
        graph.add_vertex(());
    }
    let edges = [
        (0, 1, 4), (0, 2, 9), (1, 2, 9), (1, 3, 8), (1, 4, 10), (2, 3, 2),
        (2, 5, 1), (3, 4, 7), (3, 5, 9), (4, 5, 5), (4, 6, 6), (5, 6, 2),
    ];
    for (u, v, w) in edges {
        graph.add_bidi_edge(u, v, w);
    }
    let tree = kruskal(&graph);
    assert_eq!(tree.len(), 6);
    assert_eq!(22, tree.iter().map(|&(_, _, w)| w).sum::<usize>());
}

#[test]
fn kruskal_on_disconnected_graph_gives_forest() {
    let mut graph = Graph::new();
    for _ in 0..4 {
        graph.add_vertex(());
    }
    graph.add_bidi_edge(0, 1, 3usize);
    graph.add_bidi_edge(2, 3, 1usize);
    let tree = kruskal(&graph);
    assert_eq!(tree, vec![(2, 3, 1), (0, 1, 3)]);
}
