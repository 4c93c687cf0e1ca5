use lib::kuratowski::{
    contains_k33, contains_k5, detect_kuratowski, minimal_obstruction, KuratowskiObstruction,
};
use lib::Graph;

fn complete(n: usize) -> Graph {
    let mut g = Graph::new(n);
    for i in 0..n {
        for j in (i + 1)..n {
            g.add_edge(i, j);
        }
    }
    g
}

#[test]
fn test_k5_detected() {
    let mut g = Graph::new(5);
    for i in 0..5 {
        for j in (i + 1)..5 {
            g.add_edge(i, j);
        }
    }
    let result = detect_kuratowski(&g);
    assert!(result.found);
    assert!(matches!(result.obstruction, KuratowskiObstruction::K5(_)));
}

#[test]
fn test_k33_detected() {
    let mut g = Graph::new(6);
    for i in 0..3 {
        for j in 3..6 {
            g.add_edge(i, j);
        }
    }
    let result = detect_kuratowski(&g);
    assert!(result.found);
    assert!(matches!(result.obstruction, KuratowskiObstruction::K33(_, _)));
}

#[test]
fn test_planar_no_obstruction() {
    let mut g = Graph::new(4);
    for i in 0..4 {
        for j in (i + 1)..4 {
            g.add_edge(i, j);
        }
    }
    let result = detect_kuratowski(&g);
    assert!(!result.found);
}

#[test]
fn test_contains_k5() {
    let mut g = Graph::new(5);
    for i in 0..5 {
        for j in (i + 1)..5 {
            g.add_edge(i, j);
        }
    }
    assert!(contains_k5(&g));
}

#[test]
fn test_no_k5() {
    let mut g = Graph::new(5);
    for i in 0..4 {
        g.add_edge(i, i + 1);
    }
    assert!(!contains_k5(&g));
}

#[test]
fn test_k5_not_enough_vertices() {
    let g = Graph::new(4);
    assert!(!contains_k5(&g));
}

#[test]
fn test_minimal_obstruction_k5() {
    let mut g = Graph::new(5);
    for i in 0..5 {
        for j in (i + 1)..5 {
            g.add_edge(i, j);
        }
    }
    let obs = minimal_obstruction(&g);
    assert!(matches!(obs, KuratowskiObstruction::K5(_)));
}

#[test]
fn k5_obstruction_lists_the_least_clique() {
    let r = detect_kuratowski(&complete(6));
    assert!(r.found);
    assert_eq!(r.obstruction, KuratowskiObstruction::K5(vec![0, 1, 2, 3, 4]));
}

#[test]
fn k33_obstruction_lists_both_sides() {
    let mut g = Graph::new(6);
    for i in 0..3 {
        for j in 3..6 {
            g.add_edge(i, j);
        }
    }
    let r = detect_kuratowski(&g);
    assert_eq!(
        r.obstruction,
        KuratowskiObstruction::K33(vec![0, 1, 2], vec![3, 4, 5])
    );
    assert!(contains_k33(&g));
    assert!(!contains_k5(&g));
}

#[test]
fn k33_with_interleaved_sides() {
    let mut g = Graph::new(6);
    for &l in &[0usize, 2, 4] {
        for &r in &[1usize, 3, 5] {
            g.add_edge(l, r);
        }
    }
    assert_eq!(
        minimal_obstruction(&g),
        KuratowskiObstruction::K33(vec![0, 2, 4], vec![1, 3, 5])
    );
}

#[test]
fn k5_found_in_large_graphs() {
    let g = complete(16);
    assert!(contains_k5(&g));
    assert!(contains_k33(&g));
    let r = detect_kuratowski(&g);
    assert!(r.found);
    assert_eq!(r.obstruction, KuratowskiObstruction::K5(vec![0, 1, 2, 3, 4]));
    assert_eq!(minimal_obstruction(&g), KuratowskiObstruction::K5(vec![0, 1, 2, 3, 4]));
}

#[test]
fn k33_found_in_large_graphs() {
    let mut g = Graph::new(20);
    for i in 10..13 {
        for j in 15..18 {
            g.add_edge(i, j);
        }
    }
    assert!(!contains_k5(&g));
    assert!(contains_k33(&g));
    assert_eq!(
        minimal_obstruction(&g),
        KuratowskiObstruction::K33(vec![10, 11, 12], vec![15, 16, 17])
    );
}

#[test]
fn k33_subgraph_may_have_edges_inside_a_side() {
    let g = complete(6);
    assert!(contains_k33(&g));
    let mut h = Graph::new(6);
    for i in 0..3 {
        for j in 3..6 {
            h.add_edge(i, j);
        }
    }
    h.add_edge(0, 1);
    h.add_edge(3, 4);
    assert!(contains_k33(&h));
    assert!(!contains_k5(&h));
}

#[test]
fn no_obstruction_in_a_cycle() {
    let mut g = Graph::new(7);
    for i in 0..7 {
        g.add_edge(i, (i + 1) % 7);
    }
    assert_eq!(minimal_obstruction(&g), KuratowskiObstruction::NoObstruction);
}

#[test]
fn subdivided_k5_is_found_without_a_subgraph() {
    let mut g = Graph::new(6);
    for i in 0..5 {
        for j in (i + 1)..5 {
            if !(i == 3 && j == 4) {
                g.add_edge(i, j);
            }
        }
    }
    g.add_edge(3, 5);
    g.add_edge(5, 4);
    let r = detect_kuratowski(&g);
    assert!(r.found);
    assert_eq!(r.obstruction, KuratowskiObstruction::NoObstruction);
    assert!(!contains_k5(&g));
}
