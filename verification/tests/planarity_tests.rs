use lib::planarity::{is_planar, satisfies_euler_necessary, simple_embedding};
use lib::Graph;

fn complete(n: usize) -> Graph {
    let mut g = Graph::new(n);
    for i in 0..n {
        for j in (i + 1)..n {
            g.add_edge(i, j);
        }
    }
    g
}

fn complete_bipartite_33() -> Graph {
    let mut g = Graph::new(6);
    for i in 0..3 {
        for j in 3..6 {
            g.add_edge(i, j);
        }
    }
    g
}

#[test]
fn test_planar_k4() {
    let mut g = Graph::new(4);
    for i in 0..4 {
        for j in (i + 1)..4 {
            g.add_edge(i, j);
        }
    }
    assert!(is_planar(&g).is_planar);
}

#[test]
fn test_planar_tree() {
    let mut g = Graph::new(5);
    g.add_edge(0, 1);
    g.add_edge(0, 2);
    g.add_edge(0, 3);
    g.add_edge(0, 4);
    assert!(is_planar(&g).is_planar);
}

#[test]
fn test_nonplanar_k5() {
    let mut g = Graph::new(5);
    for i in 0..5 {
        for j in (i + 1)..5 {
            g.add_edge(i, j);
        }
    }
    let result = is_planar(&g);
    assert!(!result.is_planar);
}

#[test]
fn test_nonplanar_k33() {
    let mut g = Graph::new(6);
    for i in 0..3 {
        for j in 3..6 {
            g.add_edge(i, j);
        }
    }
    let result = is_planar(&g);
    assert!(!result.is_planar);
}

#[test]
fn test_planar_cycle() {
    let mut g = Graph::new(5);
    for i in 0..5 {
        g.add_edge(i, (i + 1) % 5);
    }
    assert!(is_planar(&g).is_planar);
}

#[test]
fn test_planar_path() {
    let mut g = Graph::new(6);
    for i in 0..5 {
        g.add_edge(i, i + 1);
    }
    assert!(is_planar(&g).is_planar);
}

#[test]
fn test_euler_necessary() {
    let mut g = Graph::new(4);
    for i in 0..4 {
        for j in (i + 1)..4 {
            g.add_edge(i, j);
        }
    }
    assert!(satisfies_euler_necessary(&g));
}

#[test]
fn test_euler_violated() {
    let mut g = Graph::new(5);
    for i in 0..5 {
        for j in (i + 1)..5 {
            g.add_edge(i, j);
        }
    }
    assert!(!satisfies_euler_necessary(&g));
}

#[test]
fn test_empty_planar() {
    let g = Graph::new(0);
    assert!(is_planar(&g).is_planar);
}

#[test]
fn test_simple_embedding() {
    let mut g = Graph::new(4);
    g.add_edge(0, 1);
    g.add_edge(1, 2);
    g.add_edge(2, 3);
    g.add_edge(3, 0);
    let embedding = simple_embedding(&g);
    assert!(embedding.is_some());
}

#[test]
fn planar_result_has_no_reason() {
    let r = is_planar(&complete(4));
    assert!(r.is_planar);
    assert_eq!(r.reason, None);
}

#[test]
fn k5_reason_counts_edges() {
    let r = is_planar(&complete(5));
    assert!(!r.is_planar);
    assert_eq!(r.reason, Some("Too many edges: 10 > 3×5 - 6 = 9".to_string()));
}

#[test]
fn k33_reason_is_triangle_free_bound() {
    let r = is_planar(&complete_bipartite_33());
    assert!(!r.is_planar);
    assert_eq!(
        r.reason,
        Some("Triangle-free with too many edges: 9 > 2×6 - 4 = 8".to_string())
    );
}

#[test]
fn octahedron_is_planar() {
    // Six vertices, each adjacent to all but its opposite one.
    let mut g = Graph::new(6);
    for i in 0..6 {
        for j in (i + 1)..6 {
            if j != i + 3 {
                g.add_edge(i, j);
            }
        }
    }
    assert_eq!(g.edge_count(), 12);
    let r = is_planar(&g);
    assert!(r.is_planar);
    assert_eq!(r.reason, None);
    assert!(simple_embedding(&g).is_some());
}

#[test]
fn subdivided_k5_is_not_planar() {
    // K5 with the edge {3, 4} replaced by the path 3 - 5 - 4.
    let mut g = Graph::new(6);
    for i in 0..5 {
        for j in (i + 1)..5 {
            if !(i == 3 && j == 4) {
                g.add_edge(i, j);
            }
        }
    }
    g.add_edge(3, 5);
    g.add_edge(5, 4);
    assert_eq!(g.edge_count(), 11);
    let r = is_planar(&g);
    assert!(!r.is_planar);
    assert_eq!(r.reason, Some("Cannot find planar embedding".to_string()));
    assert!(simple_embedding(&g).is_none());
}

#[test]
fn isolated_vertices_do_not_change_planarity() {
    let mut g = Graph::new(5);
    let mut h = Graph::new(7);
    for i in 0..5 {
        for j in (i + 1)..5 {
            if !(i == 0 && j == 1) {
                g.add_edge(i, j);
                h.add_edge(i, j);
            }
        }
    }
    assert!(is_planar(&g).is_planar);
    assert!(is_planar(&h).is_planar);
}

#[test]
fn large_graph_bounds_give_reason() {
    let r = is_planar(&complete(12));
    assert!(!r.is_planar);
    assert_eq!(r.reason, Some("Too many edges: 66 > 3×12 - 6 = 30".to_string()));
}

#[test]
fn large_sparse_graph_is_planar() {
    let mut g = Graph::new(12);
    for i in 0..12 {
        g.add_edge(i, (i + 1) % 12);
    }
    g.add_edge(0, 2);
    let r = is_planar(&g);
    assert!(r.is_planar);
    assert_eq!(r.reason, None);
}

#[test]
fn euler_necessary_small_graphs() {
    assert!(satisfies_euler_necessary(&Graph::new(0)));
    assert!(satisfies_euler_necessary(&complete(2)));
    assert!(satisfies_euler_necessary(&complete(3)));
    assert!(!satisfies_euler_necessary(&complete(6)));
}

#[test]
fn simple_embedding_small_graph_lists_every_edge() {
    let e = simple_embedding(&complete(3)).unwrap();
    assert_eq!(
        e,
        vec![vec![(0, 1), (0, 2)], vec![(1, 0), (1, 2)], vec![(2, 0), (2, 1)]]
    );
    let mut g = Graph::new(4);
    g.add_edge(2, 3);
    g.add_edge(1, 1);
    let e = simple_embedding(&g).unwrap();
    assert_eq!(e, vec![vec![], vec![], vec![(2, 3)], vec![(3, 2)]]);
}

#[test]
fn simple_embedding_lists_each_edge_both_ways() {
    let mut g = Graph::new(5);
    for i in 0..4 {
        g.add_edge(i, i + 1);
    }
    let e = simple_embedding(&g).unwrap();
    assert_eq!(e.len(), 5);
    assert_eq!(e[0], vec![(0, 1)]);
    assert_eq!(e[4], vec![(4, 3)]);
    assert_eq!(e[2].len(), 2);
    assert!(e[2].contains(&(2, 1)));
    assert!(e[2].contains(&(2, 3)));
}

#[test]
fn kuratowski_subgraphs_are_rejected_at_any_size() {
    let mut g = Graph::new(16);
    for i in 0..5 {
        for j in (i + 1)..5 {
            g.add_edge(i, j);
        }
    }
    let r = is_planar(&g);
    assert!(!r.is_planar);
    assert_eq!(r.reason, Some("Contains K₅ subdivision".to_string()));
    let mut h = Graph::new(8);
    for i in 0..5 {
        for j in (i + 1)..5 {
            h.add_edge(i, j);
        }
    }
    h.add_edge(4, 5);
    h.add_edge(5, 6);
    h.add_edge(6, 7);
    assert!(!is_planar(&h).is_planar);
    let mut k = Graph::new(12);
    for i in 0..3 {
        for j in 3..6 {
            k.add_edge(i, j);
        }
    }
    k.add_edge(0, 1);
    k.add_edge(1, 2);
    let r = is_planar(&k);
    assert!(!r.is_planar);
    assert_eq!(r.reason, Some("Contains K₃,₃ subdivision".to_string()));
}

#[test]
fn simple_embedding_lists_edges_of_every_component() {
    let mut g = Graph::new(6);
    g.add_edge(0, 1);
    g.add_edge(2, 3);
    g.add_edge(3, 4);
    let e = simple_embedding(&g).unwrap();
    assert_eq!(
        e,
        vec![
            vec![(0, 1)],
            vec![(1, 0)],
            vec![(2, 3)],
            vec![(3, 2), (3, 4)],
            vec![(4, 3)],
            vec![],
        ]
    );
}

#[test]
fn simple_embedding_refuses_kuratowski_subgraphs() {
    let mut g = Graph::new(6);
    for i in 1..6 {
        for j in (i + 1)..6 {
            g.add_edge(i, j);
        }
    }
    assert!(simple_embedding(&g).is_none());
    let mut h = Graph::new(6);
    for i in 0..3 {
        for j in 3..6 {
            h.add_edge(i, j);
        }
    }
    assert!(simple_embedding(&h).is_none());
}
