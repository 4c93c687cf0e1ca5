use lib::euler::{
    count_components, euler_formula, euler_genus, max_edges_planar,
    max_edges_triangle_free_planar, min_faces, planarity_from_euler, verifies_euler,
};
use lib::Graph;

fn complete(n: usize) -> Graph {
    let mut g = Graph::new(n);
    for i in 0..n {
        for j in (i + 1)..n {
            g.add_edge(i, j);
        }
    }
    g
}

#[test]
fn test_euler_triangle() {
    let mut g = Graph::new(3);
    g.add_edge(0, 1);
    g.add_edge(1, 2);
    g.add_edge(0, 2);
    let result = euler_formula(&g);
    assert_eq!(result.vertices, 3);
    assert_eq!(result.edges, 3);
    assert!(result.satisfies_euler);
}

#[test]
fn test_euler_cycle() {
    let mut g = Graph::new(4);
    for i in 0..4 {
        g.add_edge(i, (i + 1) % 4);
    }
    let result = euler_formula(&g);
    assert!(result.satisfies_euler);
}

#[test]
fn test_euler_tree() {
    let mut g = Graph::new(4);
    g.add_edge(0, 1);
    g.add_edge(0, 2);
    g.add_edge(0, 3);
    let result = euler_formula(&g);
    assert!(result.satisfies_euler);
}

#[test]
fn test_max_edges_planar() {
    assert_eq!(max_edges_planar(4), 6);
    assert_eq!(max_edges_planar(5), 9);
}

#[test]
fn test_max_edges_triangle_free() {
    assert_eq!(max_edges_triangle_free_planar(4), 4);
}

#[test]
fn test_count_components_connected() {
    let mut g = Graph::new(4);
    g.add_edge(0, 1);
    g.add_edge(1, 2);
    g.add_edge(2, 3);
    assert_eq!(count_components(&g), 1);
}

#[test]
fn test_count_components_disconnected() {
    let mut g = Graph::new(6);
    g.add_edge(0, 1);
    g.add_edge(2, 3);
    // Vertices 4 and 5 are isolated
    assert_eq!(count_components(&g), 4);
}

#[test]
fn test_planarity_from_euler_k5() {
    let mut g = Graph::new(5);
    for i in 0..5 {
        for j in (i + 1)..5 {
            g.add_edge(i, j);
        }
    }
    assert!(!planarity_from_euler(&g));
}

#[test]
fn test_planarity_from_euler_path() {
    let mut g = Graph::new(4);
    g.add_edge(0, 1);
    g.add_edge(1, 2);
    g.add_edge(2, 3);
    assert!(planarity_from_euler(&g));
}

#[test]
fn test_min_faces_tree() {
    let mut g = Graph::new(4);
    g.add_edge(0, 1);
    g.add_edge(0, 2);
    g.add_edge(0, 3);
    assert_eq!(min_faces(&g), 1);
}

#[test]
fn test_empty_euler() {
    let g = Graph::new(0);
    let result = euler_formula(&g);
    assert_eq!(result.vertices, 0);
}

#[test]
fn euler_values_of_triangle() {
    let r = euler_formula(&complete(3));
    assert_eq!(r.faces, 2);
    assert_eq!(r.euler_characteristic, 2);
    assert_eq!(euler_genus(&complete(3)), 0);
    assert!(verifies_euler(&complete(3)));
}

#[test]
fn euler_values_of_empty_graph() {
    let g = Graph::new(0);
    let r = euler_formula(&g);
    assert_eq!(r.edges, 0);
    assert_eq!(r.faces, 1);
    assert_eq!(r.euler_characteristic, 1);
    assert!(!r.satisfies_euler);
    assert!(!verifies_euler(&g));
    assert_eq!(euler_genus(&g), 1);
}

#[test]
fn euler_values_of_disconnected_graph() {
    let mut g = Graph::new(6);
    g.add_edge(0, 1);
    g.add_edge(2, 3);
    let r = euler_formula(&g);
    assert_eq!(r.faces, 1);
    assert_eq!(r.euler_characteristic, 5);
    assert!(r.satisfies_euler);
    assert_eq!(euler_genus(&g), -3);
}

#[test]
fn euler_values_of_k5() {
    let r = euler_formula(&complete(5));
    assert_eq!(r.faces, 7);
    assert_eq!(r.euler_characteristic, 2);
    assert!(r.satisfies_euler);
}

#[test]
fn edge_bounds_for_few_vertices() {
    assert_eq!(max_edges_planar(0), 0);
    assert_eq!(max_edges_triangle_free_planar(0), 0);
    assert_eq!(max_edges_planar(1), 0);
    assert_eq!(max_edges_planar(2), 1);
    assert_eq!(max_edges_planar(3), 3);
    assert_eq!(max_edges_triangle_free_planar(1), 0);
    assert_eq!(max_edges_triangle_free_planar(2), 1);
    assert_eq!(max_edges_triangle_free_planar(3), 2);
    assert_eq!(max_edges_triangle_free_planar(10), 16);
}

#[test]
fn min_faces_of_dense_graphs() {
    assert_eq!(min_faces(&complete(4)), 4);
    assert_eq!(min_faces(&Graph::new(3)), 1);
    assert_eq!(min_faces(&complete(5)), 7);
}

#[test]
fn components_of_small_graphs() {
    assert_eq!(count_components(&Graph::new(0)), 0);
    assert_eq!(count_components(&Graph::new(3)), 3);
    assert_eq!(count_components(&complete(5)), 1);
}

#[test]
fn bipartite_bound_rejects_k33() {
    let mut g = Graph::new(6);
    for i in 0..3 {
        for j in 3..6 {
            g.add_edge(i, j);
        }
    }
    assert!(!planarity_from_euler(&g));
    let mut c = Graph::new(6);
    for i in 0..6 {
        c.add_edge(i, (i + 1) % 6);
    }
    assert!(planarity_from_euler(&c));
    assert!(planarity_from_euler(&complete(2)));
    assert!(!planarity_from_euler(&complete(6)));
}
