use lib::dual::{compute_dual, compute_dual_from_embedding, is_self_dual};
use lib::Graph;

#[test]
fn test_dual_triangle() {
    let mut g = Graph::new(3);
    g.add_edge(0, 1);
    g.add_edge(1, 2);
    g.add_edge(0, 2);
    let dual = compute_dual(&g);
    assert!(dual.is_some());
    let dual = dual.unwrap();
    // Triangle has 2 faces (inner + outer)
    assert_eq!(dual.face_vertices.len(), 2);
}

#[test]
fn test_dual_cycle() {
    let mut g = Graph::new(4);
    for i in 0..4 {
        g.add_edge(i, (i + 1) % 4);
    }
    let dual = compute_dual(&g);
    assert!(dual.is_some());
    let dual = dual.unwrap();
    // C4 has 2 faces
    assert_eq!(dual.face_vertices.len(), 2);
}

#[test]
fn test_dual_tree() {
    let mut g = Graph::new(4);
    g.add_edge(0, 1);
    g.add_edge(0, 2);
    g.add_edge(0, 3);
    let dual = compute_dual(&g);
    assert!(dual.is_some());
    // Tree has 1 face
    assert_eq!(dual.unwrap().face_vertices.len(), 1);
}

#[test]
fn test_dual_nonplanar() {
    let mut g = Graph::new(5);
    for i in 0..5 {
        for j in (i + 1)..5 {
            g.add_edge(i, j);
        }
    }
    assert!(compute_dual(&g).is_none());
}

#[test]
fn test_dual_edge_mapping() {
    let mut g = Graph::new(4);
    g.add_edge(0, 1);
    g.add_edge(1, 2);
    g.add_edge(2, 3);
    g.add_edge(3, 0);
    let dual = compute_dual(&g);
    assert!(dual.is_some());
}

#[test]
fn test_self_dual() {
    let mut g = Graph::new(4);
    g.add_edge(0, 1);
    g.add_edge(1, 2);
    g.add_edge(2, 3);
    g.add_edge(3, 0);
    // C4's dual is also C4 (2 vertices, 2 edges)
    // Actually it depends on the face count; let's just check it doesn't panic
    let _ = is_self_dual(&g);
}

#[test]
fn triangle_dual_is_one_edge() {
    let mut g = Graph::new(3);
    g.add_edge(0, 1);
    g.add_edge(1, 2);
    g.add_edge(0, 2);
    let dual = compute_dual(&g).unwrap();
    assert_eq!(dual.face_vertices, vec![vec![0, 1, 2], vec![0, 2, 1]]);
    assert_eq!(dual.graph.vertex_count(), 2);
    assert!(dual.graph.has_edge(0, 1));
    assert_eq!(dual.graph.edge_count(), 1);
    assert_eq!(
        dual.dual_edges,
        vec![((0, 1), (0, 1)), ((1, 2), (0, 1)), ((0, 2), (0, 1))]
    );
    assert!(!is_self_dual(&g));
}

#[test]
fn tree_dual_has_no_edges() {
    let mut g = Graph::new(4);
    g.add_edge(0, 1);
    g.add_edge(0, 2);
    g.add_edge(0, 3);
    let dual = compute_dual(&g).unwrap();
    assert_eq!(dual.graph.vertex_count(), 1);
    assert_eq!(dual.graph.edge_count(), 0);
    assert!(dual.dual_edges.is_empty());
}

#[test]
fn edgeless_embedding_gives_empty_dual() {
    let dual = compute_dual_from_embedding(&vec![vec![], vec![]]).unwrap();
    assert_eq!(dual.graph.vertex_count(), 0);
    assert!(dual.face_vertices.is_empty());
    assert!(dual.dual_edges.is_empty());
}

#[test]
fn broken_embedding_gives_no_dual() {
    assert!(compute_dual_from_embedding(&vec![vec![1], vec![2], vec![1]]).is_none());
}

#[test]
fn empty_graph_is_self_dual() {
    assert!(is_self_dual(&Graph::new(0)));
    assert!(!is_self_dual(&Graph::new(1)));
}

#[test]
fn nonplanar_graph_is_not_self_dual() {
    let mut g = Graph::new(5);
    for i in 0..5 {
        for j in (i + 1)..5 {
            g.add_edge(i, j);
        }
    }
    assert!(!is_self_dual(&g));
}

#[test]
fn dual_of_embedding_that_stops_early() {
    assert!(compute_dual_from_embedding(&vec![vec![1], vec![2], vec![1, 7]]).is_none());
}

#[test]
fn cycle_dual_maps_every_shared_edge() {
    let mut g = Graph::new(4);
    for i in 0..4 {
        g.add_edge(i, (i + 1) % 4);
    }
    let d = compute_dual(&g).unwrap();
    assert_eq!(d.face_vertices.len(), 2);
    assert_eq!(d.dual_edges.len(), 4);
    for &(_, pair) in &d.dual_edges {
        assert_eq!(pair, (0, 1));
    }
}

#[test]
fn self_duality_needs_an_isomorphism() {
    assert!(is_self_dual(&Graph::new(0)));
    let mut g = Graph::new(3);
    g.add_edge(0, 1);
    g.add_edge(1, 2);
    g.add_edge(0, 2);
    assert!(!is_self_dual(&g));
}

#[test]
fn tetrahedron_is_self_dual() {
    let mut g = Graph::new(4);
    for i in 0..4 {
        for j in (i + 1)..4 {
            g.add_edge(i, j);
        }
    }
    let d = compute_dual(&g).unwrap();
    assert_eq!(d.face_vertices.len(), 4);
    assert_eq!(d.graph.vertex_count(), 4);
    assert_eq!(d.graph.edge_count(), 6);
    assert_eq!(d.dual_edges.len(), 6);
    assert!(is_self_dual(&g));
}

#[test]
fn subdivided_k5_has_no_dual() {
    let mut g = Graph::new(6);
    for i in 0..5 {
        for j in (i + 1)..5 {
            if !(i == 3 && j == 4) {
                g.add_edge(i, j);
            }
        }
    }
    g.add_edge(3, 5);
    g.add_edge(5, 4);
    assert!(compute_dual(&g).is_none());
}
