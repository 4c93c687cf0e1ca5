use lib::{list_contains, Graph};

#[test]
fn new_graph_has_no_edges() {
    let g = Graph::new(3);
    assert_eq!(g.vertex_count(), 3);
    assert_eq!(g.edge_count(), 0);
    assert!(g.edges().is_empty());
    assert_eq!(g.max_degree(), 0);
    assert_eq!(g.adjacency().len(), 3);
}

#[test]
fn add_edge_is_symmetric() {
    let mut g = Graph::new(3);
    g.add_edge(0, 2);
    assert!(g.has_edge(0, 2));
    assert!(g.has_edge(2, 0));
    assert!(!g.has_edge(0, 1));
    assert_eq!(g.neighbors(0), &[2]);
    assert_eq!(g.neighbors(2), &[0]);
    assert_eq!(g.degree(1), 0);
}

#[test]
fn add_edge_twice_keeps_one_edge() {
    let mut g = Graph::new(3);
    g.add_edge(0, 1);
    g.add_edge(1, 0);
    g.add_edge(0, 1);
    assert_eq!(g.edge_count(), 1);
    assert_eq!(g.degree(0), 1);
    assert_eq!(g.degree(1), 1);
}

#[test]
fn self_loop_is_listed_once_and_not_an_edge() {
    let mut g = Graph::new(2);
    g.add_edge(1, 1);
    assert!(g.has_edge(1, 1));
    assert_eq!(g.neighbors(1), &[1]);
    assert_eq!(g.edge_count(), 0);
    assert_eq!(g.degree(1), 1);
}

#[test]
fn edges_are_ordered_pairs() {
    let mut g = Graph::new(4);
    g.add_edge(2, 1);
    g.add_edge(3, 0);
    g.add_edge(0, 1);
    assert_eq!(g.edges(), vec![(0, 3), (0, 1), (1, 2)]);
    assert_eq!(g.edge_count(), 3);
    assert_eq!(g.max_degree(), 2);
}

#[test]
fn adjacency_lists_in_insertion_order() {
    let mut g = Graph::new(3);
    g.add_edge(0, 2);
    g.add_edge(0, 1);
    let adj = g.adjacency();
    assert_eq!(adj[0], vec![2, 1]);
    assert_eq!(adj[1], vec![0]);
    assert_eq!(adj[2], vec![0]);
}

#[test]
fn list_contains_finds_members() {
    assert!(list_contains(&[3, 1, 4], 4));
    assert!(!list_contains(&[3, 1, 4], 2));
    assert!(!list_contains(&[], 0));
}
