use lib::dual::compute_dual;
use lib::embedding::{compute_embedding, compute_faces, is_valid_embedding};
use lib::euler::{
    count_components, euler_formula, euler_genus, max_edges_planar, max_edges_triangle_free_planar,
    min_faces, planarity_from_euler, verifies_euler,
};
use lib::kuratowski::{contains_k33, contains_k5, detect_kuratowski, KuratowskiObstruction};
use lib::planarity::{is_planar, satisfies_euler_necessary};
use lib::Graph;

fn complete(n: usize) -> Graph {
    let mut g = Graph::new(n);
    for i in 0..n {
        for j in (i + 1)..n {
            g.add_edge(i, j);
        }
    }
    g
}

fn sample_graphs() -> Vec<Graph> {
    let mut out = Vec::new();
    for n in 0..8 {
        out.push(complete(n));
        let mut c = Graph::new(n);
        for i in 0..n {
            c.add_edge(i, (i + 1) % n);
        }
        out.push(c);
        let mut s = Graph::new(n);
        for i in 1..n {
            s.add_edge(0, i);
        }
        out.push(s);
    }
    let mut two = Graph::new(7);
    two.add_edge(0, 1);
    two.add_edge(1, 2);
    two.add_edge(2, 0);
    two.add_edge(4, 5);
    out.push(two);
    out
}

#[test]
fn edge_count_is_at_most_all_pairs() {
    for n in 0..9 {
        assert_eq!(complete(n).edge_count(), n * n.saturating_sub(1) / 2);
    }
    for g in sample_graphs() {
        let n = g.vertex_count();
        assert!(2 * g.edge_count() <= n * n.saturating_sub(1));
    }
}

#[test]
fn each_edge_listed_once_smaller_end_first() {
    for g in sample_graphs() {
        let edges = g.edges();
        for (i, &(u, v)) in edges.iter().enumerate() {
            assert!(u < v);
            assert!(g.has_edge(u, v) && g.has_edge(v, u));
            assert!(!edges[i + 1..].contains(&(u, v)));
        }
    }
}

#[test]
fn max_degree_is_largest_degree() {
    for g in sample_graphs() {
        let n = g.vertex_count();
        let m = g.max_degree();
        assert!((0..n).all(|v| g.degree(v) <= m));
        if n > 0 {
            assert!((0..n).any(|v| g.degree(v) == m));
        }
    }
}

#[test]
fn euler_formula_holds_for_every_nonempty_graph() {
    for g in sample_graphs() {
        if g.vertex_count() == 0 {
            continue;
        }
        let c = count_components(&g) as i64;
        let r = euler_formula(&g);
        assert!(r.satisfies_euler);
        assert_eq!(r.euler_characteristic, 1 + c);
        assert_eq!(r.faces as i64, r.edges as i64 - r.vertices as i64 + 1 + c);
        assert_eq!(euler_genus(&g), 1 - c);
        assert!(c >= 1 && c as usize <= g.vertex_count());
    }
}

#[test]
fn accepted_graphs_meet_euler_bound() {
    for g in sample_graphs() {
        let n = g.vertex_count();
        if is_planar(&g).is_planar {
            assert!(satisfies_euler_necessary(&g));
            if n >= 1 {
                assert!(g.edge_count() <= max_edges_planar(n));
            }
        }
        if planarity_from_euler(&g) {
            assert!(satisfies_euler_necessary(&g));
        }
        assert_eq!(
            compute_embedding(&g).is_some(),
            satisfies_euler_necessary(&g) && !contains_k5(&g) && !contains_k33(&g)
        );
    }
}

#[test]
fn verdict_has_reason_exactly_when_rejected() {
    for g in sample_graphs() {
        let r = is_planar(&g);
        assert_eq!(r.is_planar, r.reason.is_none());
    }
}

#[test]
fn computed_embeddings_are_valid() {
    for g in sample_graphs() {
        if let Some(e) = compute_embedding(&g) {
            assert!(is_valid_embedding(&e));
        }
    }
}

#[test]
fn faces_are_closed_walks_along_the_rotation() {
    for g in sample_graphs() {
        let Some(e) = compute_embedding(&g) else { continue };
        let Some(faces) = compute_faces(&e) else { continue };
        for f in &faces {
            let m = f.len();
            assert!(m >= 2);
            for i in 0..m {
                let v = f[i];
                let w = f[(i + 1) % m];
                let x = f[(i + 2) % m];
                assert!(e[v].contains(&w));
                let l = &e[w];
                let p = l.iter().position(|&y| y == v).unwrap();
                assert_eq!(l[(p + 1) % l.len()], x);
            }
        }
    }
}

#[test]
fn dual_vertices_adjacent_iff_faces_share_an_edge() {
    let mut g = Graph::new(4);
    g.add_edge(0, 1);
    g.add_edge(1, 2);
    g.add_edge(2, 0);
    g.add_edge(2, 3);
    let d = compute_dual(&g).unwrap();
    let faces = &d.face_vertices;
    assert_eq!(d.graph.vertex_count(), faces.len());
    let shares = |a: &Vec<usize>, b: &Vec<usize>| {
        (0..a.len()).any(|i| {
            let (u, v) = (a[i], a[(i + 1) % a.len()]);
            (0..b.len()).any(|j| {
                let (x, y) = (b[j], b[(j + 1) % b.len()]);
                (u == x && v == y) || (u == y && v == x)
            })
        })
    };
    for i in 0..faces.len() {
        for j in 0..faces.len() {
            let expected = i != j && shares(&faces[i], &faces[j]);
            assert_eq!(d.graph.has_edge(i, j), expected);
        }
    }
}

#[test]
fn reported_obstructions_are_real() {
    let mut g = complete(6);
    g.add_edge(0, 5);
    let r = detect_kuratowski(&g);
    assert!(r.found);
    match r.obstruction {
        KuratowskiObstruction::K5(vs) => {
            assert_eq!(vs.len(), 5);
            for i in 0..5 {
                for j in (i + 1)..5 {
                    assert!(vs[i] < vs[j]);
                    assert!(g.has_edge(vs[i], vs[j]));
                }
            }
        }
        _ => panic!("expected K5"),
    }
    let mut h = Graph::new(7);
    for &l in &[1usize, 3, 5] {
        for &r in &[2usize, 4, 6] {
            h.add_edge(l, r);
        }
    }
    h.add_edge(0, 1);
    match detect_kuratowski(&h).obstruction {
        KuratowskiObstruction::K33(l, r) => {
            assert_eq!(l.len(), 3);
            assert_eq!(r.len(), 3);
            for &x in &l {
                for &y in &r {
                    assert!(h.has_edge(x, y));
                }
            }
            for i in 0..3 {
                for j in 0..3 {
                    assert!(l[i] != r[j]);
                }
            }
        }
        _ => panic!("expected K3,3"),
    }
}

#[test]
fn adding_an_edge_twice_changes_nothing() {
    let mut g = complete(4);
    let before = g.adjacency().to_vec();
    g.add_edge(2, 1);
    assert_eq!(g.adjacency().to_vec(), before);
    let mut h = Graph::new(3);
    h.add_edge(0, 2);
    let once = h.adjacency().to_vec();
    h.add_edge(0, 2);
    assert_eq!(h.adjacency().to_vec(), once);
    assert_eq!(h.edges(), vec![(0, 2)]);
}

#[test]
fn faces_run_along_every_dart_once() {
    for g in sample_graphs() {
        let Some(e) = compute_embedding(&g) else { continue };
        let Some(faces) = compute_faces(&e) else { continue };
        let mut darts = Vec::new();
        for f in &faces {
            for i in 0..f.len() {
                darts.push((f[i], f[(i + 1) % f.len()]));
            }
        }
        for (i, d) in darts.iter().enumerate() {
            assert!(!darts[i + 1..].contains(d));
        }
        let mut loops = 0;
        for v in 0..e.len() {
            for &w in &e[v] {
                if w == v && e[v].len() == 1 {
                    assert!(!darts.contains(&(v, w)));
                    loops += 1;
                } else {
                    assert!(darts.contains(&(v, w)));
                }
            }
        }
        if loops == 0 {
            assert_eq!(darts.len(), 2 * g.edge_count());
        }
    }
}

#[test]
fn lone_loop_lies_on_no_face() {
    let e = vec![vec![0], vec![2], vec![1]];
    let faces = compute_faces(&e).unwrap();
    assert_eq!(faces, vec![vec![1, 2]]);
}

#[test]
fn dual_edge_map_names_shared_edges() {
    for g in sample_graphs() {
        let Some(d) = compute_dual(&g) else { continue };
        let faces = &d.face_vertices;
        let on = |f: &Vec<usize>, (u, v): (usize, usize)| {
            (0..f.len()).any(|i| {
                let (a, b) = (f[i], f[(i + 1) % f.len()]);
                (a == u && b == v) || (a == v && b == u)
            })
        };
        for &((u, v), (i, j)) in &d.dual_edges {
            assert!(i < j && j < faces.len());
            assert!(u <= v);
            assert!(on(&faces[i], (u, v)));
            assert!(on(&faces[j], (u, v)));
            assert!(d.graph.has_edge(i, j));
        }
        for i in 0..faces.len() {
            for j in (i + 1)..faces.len() {
                for (u, v) in g.edges() {
                    if on(&faces[i], (u, v)) && on(&faces[j], (u, v)) {
                        assert!(d.dual_edges.contains(&((u, v), (i, j))));
                    }
                }
            }
        }
    }
}

#[test]
fn euler_formula_reported_exactly_for_nonempty_graphs() {
    for g in sample_graphs() {
        assert_eq!(verifies_euler(&g), g.vertex_count() > 0);
    }
}

#[test]
fn connected_graphs_min_faces_match_euler() {
    for g in sample_graphs() {
        if count_components(&g) == 1 {
            assert_eq!(min_faces(&g), euler_formula(&g).faces);
        }
    }
}

fn has_triangle(g: &Graph) -> bool {
    let n = g.vertex_count();
    (0..n).any(|u| (u + 1..n).any(|v| (v + 1..n).any(|w| g.has_edge(u, v) && g.has_edge(v, w) && g.has_edge(u, w))))
}

#[test]
fn accepted_triangle_free_graphs_meet_the_tighter_bound() {
    let mut graphs = sample_graphs();
    let mut c4 = Graph::new(4);
    for i in 0..4 {
        c4.add_edge(i, (i + 1) % 4);
    }
    graphs.push(c4);
    for g in graphs {
        let n = g.vertex_count();
        if n >= 1 && is_planar(&g).is_planar && !has_triangle(&g) {
            assert!(g.edge_count() <= max_edges_triangle_free_planar(n));
        }
    }
}

#[test]
fn degrees_add_up_to_twice_the_edges_plus_loops() {
    for g in sample_graphs() {
        let n = g.vertex_count();
        let sum: usize = (0..n).map(|v| g.degree(v)).sum();
        let loops = (0..n).filter(|&v| g.has_edge(v, v)).count();
        assert_eq!(sum, 2 * g.edge_count() + loops);
    }
}

#[test]
fn planar_embeddings_have_euler_face_count() {
    for g in sample_graphs() {
        let Some(e) = compute_embedding(&g) else { continue };
        let n = g.vertex_count() as i64;
        let c = count_components(&g) as i64;
        let isolated = (0..g.vertex_count()).filter(|&v| g.neighbors(v).iter().all(|&w| w == v)).count() as i64;
        let faces = compute_faces(&e).unwrap().len() as i64;
        assert_eq!(faces, g.edge_count() as i64 - n + 2 * c - isolated);
        assert!(is_planar(&g).is_planar);
    }
}

#[test]
fn kuratowski_detection_agrees_with_planarity() {
    for g in sample_graphs() {
        assert_eq!(detect_kuratowski(&g).found, !is_planar(&g).is_planar);
    }
}
