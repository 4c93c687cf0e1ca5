use lib::embedding::{compute_embedding, compute_faces, is_valid_embedding, rotation_system};
use lib::Graph;

#[test]
fn test_embedding_triangle() {
    let mut g = Graph::new(3);
    g.add_edge(0, 1);
    g.add_edge(1, 2);
    g.add_edge(0, 2);
    let embedding = compute_embedding(&g);
    assert!(embedding.is_some());
    assert!(is_valid_embedding(&embedding.unwrap()));
}

#[test]
fn test_embedding_tree() {
    let mut g = Graph::new(4);
    g.add_edge(0, 1);
    g.add_edge(0, 2);
    g.add_edge(0, 3);
    let embedding = compute_embedding(&g);
    assert!(embedding.is_some());
}

#[test]
fn test_nonplanar_no_embedding() {
    let mut g = Graph::new(5);
    for i in 0..5 {
        for j in (i + 1)..5 {
            g.add_edge(i, j);
        }
    }
    let embedding = compute_embedding(&g);
    assert!(embedding.is_none());
}

#[test]
fn test_compute_faces_triangle() {
    let embedding = vec![vec![1, 2], vec![0, 2], vec![0, 1]];
    let faces = compute_faces(&embedding);
    assert!(faces.is_some());
    let faces = faces.unwrap();
    assert!(faces.len() >= 2); // Inner face + outer face
}

#[test]
fn test_rotation_system() {
    let embedding = vec![vec![1, 2], vec![0, 2], vec![0, 1]];
    let rs = rotation_system(&embedding);
    assert_eq!(rs.len(), 3);
    assert_eq!(rs[0].len(), 2);
}

#[test]
fn test_valid_embedding() {
    let embedding = vec![vec![1, 2], vec![0, 2], vec![1, 0]];
    assert!(is_valid_embedding(&embedding));
}

#[test]
fn test_invalid_embedding() {
    let embedding = vec![vec![1], vec![], vec![1]];
    assert!(!is_valid_embedding(&embedding));
}

#[test]
fn embedding_is_the_adjacency() {
    let mut g = Graph::new(4);
    g.add_edge(0, 1);
    g.add_edge(0, 2);
    g.add_edge(0, 3);
    g.add_edge(2, 3);
    let e = compute_embedding(&g).unwrap();
    assert_eq!(e, vec![vec![1, 2, 3], vec![0], vec![0, 3], vec![0, 2]]);
    assert!(is_valid_embedding(&e));
}

#[test]
fn small_graphs_always_embed() {
    let mut g = Graph::new(3);
    g.add_edge(0, 1);
    assert_eq!(compute_embedding(&g), Some(vec![vec![1], vec![0], vec![]]));
    assert_eq!(compute_embedding(&Graph::new(0)), Some(vec![]));
}

#[test]
fn faces_of_triangle_are_both_orientations() {
    let embedding = vec![vec![1, 2], vec![0, 2], vec![0, 1]];
    let faces = compute_faces(&embedding).unwrap();
    assert_eq!(faces, vec![vec![0, 1, 2], vec![0, 2, 1]]);
}

#[test]
fn faces_of_empty_embedding() {
    let empty: Vec<Vec<usize>> = vec![];
    assert_eq!(compute_faces(&empty), Some(vec![]));
    assert_eq!(compute_faces(&vec![vec![], vec![]]), Some(vec![]));
}

#[test]
fn faces_of_a_star_is_one_walk() {
    let embedding = vec![vec![1, 2, 3], vec![0], vec![0], vec![0]];
    let faces = compute_faces(&embedding).unwrap();
    assert_eq!(faces, vec![vec![0, 1, 0, 2, 0, 3]]);
}

#[test]
fn faces_fail_when_a_dart_has_no_return() {
    let embedding = vec![vec![1], vec![2], vec![1]];
    assert_eq!(compute_faces(&embedding), None);
}

#[test]
fn rotation_system_gives_prev_and_next() {
    let embedding = vec![vec![1, 2, 3], vec![], vec![0]];
    let rs = rotation_system(&embedding);
    assert_eq!(rs[0], vec![(1, 3, 2), (2, 1, 3), (3, 2, 1)]);
    assert_eq!(rs[1], vec![]);
    assert_eq!(rs[2], vec![(0, 0, 0)]);
}

#[test]
fn out_of_range_entry_is_invalid() {
    let embedding = vec![vec![5]];
    assert!(!is_valid_embedding(&embedding));
}

#[test]
fn faces_stop_before_an_entry_that_is_no_vertex() {
    let embedding = vec![vec![1], vec![2], vec![1, 7]];
    assert_eq!(compute_faces(&embedding), None);
}

#[test]
fn kuratowski_subgraph_gets_no_embedding() {
    let mut g = Graph::new(6);
    for i in 0..3 {
        for j in 3..6 {
            g.add_edge(i, j);
        }
    }
    assert_eq!(compute_embedding(&g), None);
    let mut h = Graph::new(16);
    for i in 0..5 {
        for j in (i + 1)..5 {
            h.add_edge(i, j);
        }
    }
    assert_eq!(compute_embedding(&h), None);
}

#[test]
fn tetrahedron_embedding_has_four_faces() {
    let mut g = Graph::new(4);
    for i in 0..4 {
        for j in (i + 1)..4 {
            g.add_edge(i, j);
        }
    }
    let e = compute_embedding(&g).unwrap();
    assert!(is_valid_embedding(&e));
    for u in 0..4 {
        let mut l = e[u].clone();
        l.sort();
        let mut nb: Vec<usize> = g.neighbors(u).to_vec();
        nb.sort();
        assert_eq!(l, nb);
    }
    let faces = compute_faces(&e).unwrap();
    assert_eq!(faces.len(), 4);
    for f in &faces {
        assert_eq!(f.len(), 3);
    }
}

#[test]
fn planar_embedding_meets_euler_formula() {
    // The octahedron: 6 vertices, 12 edges, so 8 faces.
    let mut g = Graph::new(6);
    for i in 0..6 {
        for j in (i + 1)..6 {
            if j != i + 3 {
                g.add_edge(i, j);
            }
        }
    }
    let e = compute_embedding(&g).unwrap();
    assert_eq!(compute_faces(&e).unwrap().len(), 8);
}
