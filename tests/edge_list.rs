use pairing_graph::edge_list::{mst, Graph};

#[test]
fn tests_basic() {
    let mut g = Graph::new();
    let a = g.add_vertex("Alice");
    let b = g.add_vertex("Bob");
    let c = g.add_vertex("Carol");

    g.add_dir_edge("tutors", a, b);
    g.add_edge("studies with", b, c);
    g.add_edge("does sportsball with", c, a);

    assert!(*g.get_vertices() == vec!["Alice", "Bob", "Carol"]);
    assert!(*g.get_vertex(1) == "Bob");
    assert!(g.edge_data == vec!["tutors", "studies with", "does sportsball with"]);
    assert!(g.get_edge(c, b) == Some(&"studies with"));
    assert!(g.get_neighbors(b) == vec![c]);
}

#[test]
fn test_basic() {
    let mut g = Graph::new();
    let a = g.add_vertex("a");
    let b = g.add_vertex("b");
    let c = g.add_vertex("c");

    g.add_dir_edge(5, a, b);
    g.add_edge(3, b, c);
    g.add_edge(4, c, a);

    assert!(mst(g) == vec![1, 2]);
}

#[test]
fn directed_edge_has_no_reverse() {
    let mut g: Graph<(), &str> = Graph::new();
    let a = g.add_vertex(());
    let b = g.add_vertex(());
    g.add_dir_edge("one way", a, b);
    assert_eq!(g.get_edge_ind(a, b), Some(0));
    assert_eq!(g.get_edge_ind(b, a), None);
    assert_eq!(g.get_edge(b, a), None);
    assert!(g.get_neighbors(b).is_empty());
}

#[test]
fn re_adding_an_edge_replaces_it() {
    let mut g: Graph<(), u32> = Graph::new();
    let a = g.add_vertex(());
    let b = g.add_vertex(());
    g.add_dir_edge(1, a, b);
    g.add_dir_edge(2, a, b);
    assert_eq!(g.get_edge_ind(a, b), Some(1));
    assert_eq!(g.get_edge(a, b), Some(&2));
    assert_eq!(g.get_neighbors(a), vec![b]);
    assert_eq!(g.edge_data, vec![1, 2]);
}

#[test]
fn mst_of_empty_and_single_vertex_graphs() {
    let g: Graph<(), usize> = Graph::new();
    assert!(mst(g).is_empty());
    let mut g: Graph<(), usize> = Graph::new();
    g.add_vertex(());
    assert!(mst(g).is_empty());
}
