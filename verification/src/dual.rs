//! Dual graph construction from planar embeddings.
//!
//! Constructs the dual graph of a planar graph from its embedding,
//! where each face becomes a vertex and adjacent faces share edges.

use vstd::prelude::*;
use crate::{add_edge_spec, list_contains, num_edges, Graph};
use crate::embedding::{
    pair_list_contains,
    compute_embedding, compute_faces, emb_view, faces_escape, faces_of, valid_embedding_spec, PlanarEmbedding,
};
use crate::face_walks::lemma_faces_stay_in_range;
use crate::rotation::{first_planar_rotation, planar, planar_face_count};
use crate::planarity::norm_pair;

verus! {

/// Result of dual graph construction.
#[derive(Debug, Clone)]
pub struct DualGraph {
    /// The dual graph.
    pub graph: Graph,
    /// Mapping from face index to the vertices on that face's boundary.
    pub face_vertices: Vec<Vec<usize>>,
    /// Mapping from an edge (u, v) of the embedded graph to the dual edge (face_i, face_j).
    pub dual_edges: Vec<((usize, usize), (usize, usize))>,
}

/// The edge from position `i` of a face boundary to the next, cyclically.
pub open spec fn cyc_edge(f: Seq<usize>, i: int) -> (usize, usize) {
    (f[i], f[(i + 1) % f.len() as int])
}

/// Two vertex pairs name the same undirected edge.
pub open spec fn same_edge(p: (usize, usize), q: (usize, usize)) -> bool {
    (p.0 == q.0 && p.1 == q.1) || (p.0 == q.1 && p.1 == q.0)
}

/// The boundary of `f` runs along the edge `p`.
pub open spec fn edge_in_face(f: Seq<usize>, p: (usize, usize)) -> bool {
    exists|j: int| 0 <= j < f.len() && same_edge(p, #[trigger] cyc_edge(f, j))
}

/// The two face boundaries run along a common edge.
pub open spec fn faces_share_edge(f1: Seq<usize>, f2: Seq<usize>) -> bool {
    exists|i: int| 0 <= i < f1.len() && edge_in_face(f2, #[trigger] cyc_edge(f1, i))
}

/// The edges of `f1`, smaller end first, that `f2` also runs along, from
/// the boundary positions below `t` of `f1`, each once, in order of first
/// appearance.
pub open spec fn shared_upto(f1: Seq<usize>, f2: Seq<usize>, t: int) -> Seq<(usize, usize)>
    decreases t,
{
    if t <= 0 {
        Seq::empty()
    } else {
        let prev = shared_upto(f1, f2, t - 1);
        let e = norm_pair(cyc_edge(f1, t - 1));
        if edge_in_face(f2, cyc_edge(f1, t - 1)) && !prev.contains(e) {
            prev.push(e)
        } else {
            prev
        }
    }
}

/// Every edge on both boundaries, smaller end first, each once, in the
/// order of `f1`.
pub open spec fn shared_edges(f1: Seq<usize>, f2: Seq<usize>) -> Seq<(usize, usize)> {
    shared_upto(f1, f2, f1.len() as int)
}

/// Faces `x` and `y` are distinct and share an edge.
pub open spec fn dual_adjacent(faces: Seq<Seq<usize>>, x: int, y: int) -> bool {
    x != y && if x < y {
        faces_share_edge(faces[x], faces[y])
    } else {
        faces_share_edge(faces[y], faces[x])
    }
}

/// The faces below `t` adjacent to face `k`, in increasing order.
pub open spec fn dual_list_upto(faces: Seq<Seq<usize>>, k: int, t: int) -> Seq<usize>
    decreases t,
{
    if t <= 0 {
        Seq::empty()
    } else {
        dual_list_upto(faces, k, t - 1) + if dual_adjacent(faces, k, t - 1) {
            seq![(t - 1) as usize]
        } else {
            Seq::<usize>::empty()
        }
    }
}

/// The adjacency lists of the dual: every face lists its adjacent faces in increasing order.
pub open spec fn dual_lists(faces: Seq<Seq<usize>>) -> Seq<Seq<usize>> {
    Seq::new(faces.len(), |k: int| dual_list_upto(faces, k, faces.len() as int))
}

/// The entries for the pairs `(i, j)`, `i < j < t`: every edge the two
/// faces share, with the pair.
pub open spec fn dual_row(faces: Seq<Seq<usize>>, i: int, t: int) -> Seq<((usize, usize), (usize, usize))>
    decreases t - i,
{
    if t <= i + 1 {
        Seq::empty()
    } else {
        dual_row(faces, i, t - 1) + shared_edges(faces[i], faces[t - 1]).map_values(
            |e: (usize, usize)| (e, (i as usize, (t - 1) as usize)),
        )
    }
}

/// The entries of the rows `0..r`.
pub open spec fn dual_entries(faces: Seq<Seq<usize>>, r: int) -> Seq<((usize, usize), (usize, usize))>
    decreases r,
{
    if r <= 0 {
        Seq::empty()
    } else {
        dual_entries(faces, r - 1) + dual_row(faces, r - 1, faces.len() as int)
    }
}

/// `d` is the dual built on the faces `faces`.
pub open spec fn is_dual_of(d: DualGraph, faces: Seq<Seq<usize>>) -> bool {
    &&& emb_view(d.face_vertices@) == faces
    &&& d.graph.wf()
    &&& d.graph@ == dual_lists(faces)
    &&& d.dual_edges@ == dual_entries(faces, faces.len() as int)
}

/// Compute the dual graph of the embedding that `compute_embedding` gives.
///
/// The dual graph has one vertex for each face of the embedding,
/// and an edge between two dual vertices iff the corresponding faces
/// share an edge in the embedded graph.
pub fn compute_dual(graph: &Graph) -> (r: Option<DualGraph>)
    requires
        graph.wf(),
    ensures
        r is None <==> !planar(graph@),
        r matches Some(d) ==> is_dual_of(d, faces_of(first_planar_rotation(graph@))->0),
        r matches Some(d) ==> d.face_vertices@.len() == planar_face_count(graph@),
{
    let embedding = match compute_embedding(graph) {
        Some(e) => e,
        None => {
            return None;
        },
    };
    proof {
        let ev = emb_view(embedding@);
        assert forall|u: int, i: int| 0 <= u < ev.len() && 0 <= i < ev[u].len() implies (#[trigger] ev[u][i])
            < ev.len() by {
            assert(valid_embedding_spec(ev));
        }
        lemma_faces_stay_in_range(ev);
    }
    let d = compute_dual_from_embedding(&embedding);
    proof {
        if d is Some {
            assert(emb_view(d->0.face_vertices@).len() == d->0.face_vertices@.len());
        }
    }
    d
}

proof fn lemma_dual_list_below(faces: Seq<Seq<usize>>, k: int, t: int, x: usize)
    requires
        dual_list_upto(faces, k, t).contains(x),
    ensures
        (x as int) < t,
    decreases t,
{
    if t > 0 {
        let p = dual_list_upto(faces, k, t - 1);
        if p.contains(x) {
            lemma_dual_list_below(faces, k, t - 1, x);
        } else {
            let q = dual_list_upto(faces, k, t);
            let i = choose|i: int| 0 <= i < q.len() && q[i] == x;
            assert(i >= p.len());
        }
    }
}

proof fn lemma_dual_list_contains(faces: Seq<Seq<usize>>, k: int, t: int, y: usize)
    requires
        t <= faces.len() <= usize::MAX,
    ensures
        dual_list_upto(faces, k, t).contains(y) <==> ((y as int) < t && dual_adjacent(faces, k, y as int)),
    decreases t,
{
    if t > 0 {
        lemma_dual_list_contains(faces, k, t - 1, y);
        let p = dual_list_upto(faces, k, t - 1);
        let q = dual_list_upto(faces, k, t);
        if dual_adjacent(faces, k, t - 1) {
            assert(q == p.push((t - 1) as usize));
            if q.contains(y) && y as int != t - 1 {
                let i = choose|i: int| 0 <= i < q.len() && q[i] == y;
                assert(p[i] == y);
            }
            if p.contains(y) {
                let i = choose|i: int| 0 <= i < p.len() && p[i] == y;
                assert(q[i] == y);
            }
            if y as int == t - 1 {
                assert(q[p.len() as int] == y);
            }
        } else {
            assert(q == p);
        }
    }
}

/// The dual has one vertex per face, and two dual vertices are adjacent
/// exactly when they are distinct faces whose boundaries share an edge.
pub proof fn lemma_dual_adjacency(faces: Seq<Seq<usize>>, x: int, y: usize)
    requires
        0 <= x < faces.len() <= usize::MAX,
        (y as int) < faces.len(),
    ensures
        dual_lists(faces).len() == faces.len(),
        dual_lists(faces)[x].contains(y) <==> dual_adjacent(faces, x, y as int),
        dual_adjacent(faces, x, y as int) <==> dual_adjacent(faces, y as int, x),
{
    lemma_dual_list_contains(faces, x, faces.len() as int, y);
}

/// `p`, smaller end first, lies on both face boundaries.
pub open spec fn edge_on_both(f1: Seq<usize>, f2: Seq<usize>, p: (usize, usize)) -> bool {
    p.0 <= p.1 && edge_in_face(f1, p) && edge_in_face(f2, p)
}

proof fn lemma_shared_upto(f1: Seq<usize>, f2: Seq<usize>, t: int, p: (usize, usize))
    requires
        0 <= t <= f1.len(),
    ensures
        shared_upto(f1, f2, t).no_duplicates(),
        shared_upto(f1, f2, t).contains(p) <==> exists|k: int|
            0 <= k < t && edge_in_face(f2, #[trigger] cyc_edge(f1, k)) && norm_pair(cyc_edge(f1, k)) == p,
    decreases t,
{
    if t > 0 {
        lemma_shared_upto(f1, f2, t - 1, p);
        let prev = shared_upto(f1, f2, t - 1);
        let e = norm_pair(cyc_edge(f1, t - 1));
        let cur = shared_upto(f1, f2, t);
        if edge_in_face(f2, cyc_edge(f1, t - 1)) && !prev.contains(e) {
            assert(cur == prev.push(e));
            assert forall|x: int, y: int| 0 <= x < y < cur.len() implies cur[x] != cur[y] by {
                if y == prev.len() {
                    assert(prev.contains(prev[x]));
                } else {
                    assert(cur[x] == prev[x] && cur[y] == prev[y]);
                }
            }
            crate::paths::lemma_push_contains(prev, e, p);
        } else {
            assert(cur == prev);
        }
        if exists|k: int| 0 <= k < t && edge_in_face(f2, #[trigger] cyc_edge(f1, k)) && norm_pair(cyc_edge(f1, k)) == p {
            let k = choose|k: int| 0 <= k < t && edge_in_face(f2, #[trigger] cyc_edge(f1, k)) && norm_pair(cyc_edge(f1, k)) == p;
            if k < t - 1 {
                assert(prev.contains(p));
                if cur != prev {
                    crate::paths::lemma_push_contains(prev, e, p);
                }
            }
        }
    }
}

/// An edge, smaller end first, lies on both boundaries exactly when it is
/// listed among their shared edges.
proof fn lemma_shared_edges(f1: Seq<usize>, f2: Seq<usize>, p: (usize, usize))
    ensures
        shared_edges(f1, f2).no_duplicates(),
        shared_edges(f1, f2).contains(p) <==> edge_on_both(f1, f2, p),
{
    lemma_shared_upto(f1, f2, f1.len() as int, p);
    if edge_on_both(f1, f2, p) {
        let k = choose|k: int| 0 <= k < f1.len() && same_edge(p, #[trigger] cyc_edge(f1, k));
        let j = choose|j: int| 0 <= j < f2.len() && same_edge(p, #[trigger] cyc_edge(f2, j));
        assert(same_edge(cyc_edge(f1, k), cyc_edge(f2, j)));
        assert(edge_in_face(f2, cyc_edge(f1, k)));
        assert(norm_pair(cyc_edge(f1, k)) == p);
    }
    if shared_edges(f1, f2).contains(p) {
        let k = choose|k: int|
            0 <= k < f1.len() && edge_in_face(f2, #[trigger] cyc_edge(f1, k)) && norm_pair(cyc_edge(f1, k)) == p;
        let c = cyc_edge(f1, k);
        assert(same_edge(p, c));
        let j = choose|j: int| 0 <= j < f2.len() && same_edge(c, #[trigger] cyc_edge(f2, j));
        assert(same_edge(p, cyc_edge(f2, j)));
    }
}

proof fn lemma_dual_row(faces: Seq<Seq<usize>>, i: int, t: int, ent: ((usize, usize), (usize, usize)))
    requires
        0 <= i,
        t <= faces.len() <= usize::MAX,
    ensures
        dual_row(faces, i, t).contains(ent) <==> (ent.1.0 == i && i < ent.1.1 < t && edge_on_both(
            faces[i],
            faces[ent.1.1 as int],
            ent.0,
        )),
        dual_row(faces, i, t).no_duplicates(),
    decreases t - i,
{
    if t > i + 1 {
        lemma_dual_row(faces, i, t - 1, ent);
        let p = dual_row(faces, i, t - 1);
        let se = shared_edges(faces[i], faces[t - 1]);
        let f = |e: (usize, usize)| (e, (i as usize, (t - 1) as usize));
        let q = se.map_values(f);
        assert(dual_row(faces, i, t) == p + q);
        lemma_shared_edges(faces[i], faces[t - 1], ent.0);
        if q.contains(ent) {
            let k = choose|k: int| 0 <= k < q.len() && q[k] == ent;
            assert(se.contains(se[k]));
        }
        if ent.1.0 == i && ent.1.1 == t - 1 && edge_on_both(faces[i], faces[t - 1], ent.0) {
            let k = choose|k: int| 0 <= k < se.len() && se[k] == ent.0;
            assert(q[k] == ent);
        }
        if (p + q).contains(ent) {
            let k = choose|k: int| 0 <= k < (p + q).len() && (p + q)[k] == ent;
            if k < p.len() {
                assert(p[k] == ent);
            } else {
                assert(q[k - p.len()] == ent);
            }
        }
        if p.contains(ent) {
            let k = choose|k: int| 0 <= k < p.len() && p[k] == ent;
            assert((p + q)[k] == ent);
        }
        if q.contains(ent) {
            let k = choose|k: int| 0 <= k < q.len() && q[k] == ent;
            assert((p + q)[p.len() + k] == ent);
        }
        assert((p + q).no_duplicates()) by {
            lemma_shared_edges(faces[i], faces[t - 1], (0, 0));
            assert forall|x: int, y: int| 0 <= x < y < q.len() implies q[x] != q[y] by {
                assert(se[x] != se[y]);
            }
            assert forall|x: int, y: int| 0 <= x < p.len() && 0 <= y < q.len() implies p[x] != q[y] by {
                lemma_dual_row(faces, i, t - 1, p[x]);
                assert(p.contains(p[x]));
            }
            vstd::seq_lib::lemma_no_dup_in_concat(p, q);
        }
    }
}

proof fn lemma_dual_entries(faces: Seq<Seq<usize>>, m: int, ent: ((usize, usize), (usize, usize)))
    requires
        0 <= m <= faces.len() <= usize::MAX,
    ensures
        dual_entries(faces, m).contains(ent) <==> (ent.1.0 < m && ent.1.0 < ent.1.1 < faces.len()
            && edge_on_both(faces[ent.1.0 as int], faces[ent.1.1 as int], ent.0)),
        dual_entries(faces, m).no_duplicates(),
    decreases m,
{
    if m > 0 {
        lemma_dual_entries(faces, m - 1, ent);
        lemma_dual_row(faces, m - 1, faces.len() as int, ent);
        let p = dual_entries(faces, m - 1);
        let q = dual_row(faces, m - 1, faces.len() as int);
        assert(dual_entries(faces, m) == p + q);
        if (p + q).contains(ent) {
            let k = choose|k: int| 0 <= k < (p + q).len() && (p + q)[k] == ent;
            if k < p.len() {
                assert(p[k] == ent);
            } else {
                assert(q[k - p.len()] == ent);
            }
        }
        if p.contains(ent) {
            let k = choose|k: int| 0 <= k < p.len() && p[k] == ent;
            assert((p + q)[k] == ent);
        }
        if q.contains(ent) {
            let k = choose|k: int| 0 <= k < q.len() && q[k] == ent;
            assert((p + q)[p.len() + k] == ent);
        }
        assert forall|x: int, y: int| 0 <= x < p.len() && 0 <= y < q.len() implies p[x] != q[y] by {
            lemma_dual_entries(faces, m - 1, p[x]);
            lemma_dual_row(faces, m - 1, faces.len() as int, p[x]);
            assert(p.contains(p[x]));
            if p[x] == q[y] {
                assert(q.contains(q[y]));
            }
        }
        vstd::seq_lib::lemma_no_dup_in_concat(p, q);
    }
}

/// The dual's edge map lists each pair of faces `i < j` with each edge
/// (smaller end first) on the boundaries of both, every such entry
/// exactly once.
pub proof fn lemma_dual_entries_exact(faces: Seq<Seq<usize>>, ent: ((usize, usize), (usize, usize)))
    requires
        faces.len() <= usize::MAX,
    ensures
        dual_entries(faces, faces.len() as int).contains(ent) <==> (ent.1.0 < ent.1.1 < faces.len() && edge_on_both(
            faces[ent.1.0 as int],
            faces[ent.1.1 as int],
            ent.0,
        )),
        dual_entries(faces, faces.len() as int).no_duplicates(),
{
    lemma_dual_entries(faces, faces.len() as int, ent);
}

/// The dual's list of face `k` after the pairs before `(i, j)` are processed.
pub open spec fn dual_progress(faces: Seq<Seq<usize>>, k: int, i: int, j: int) -> Seq<usize> {
    let m = faces.len() as int;
    if k < i {
        dual_list_upto(faces, k, m)
    } else if k == i {
        dual_list_upto(faces, i, j)
    } else if k < j {
        dual_list_upto(faces, k, i + 1)
    } else {
        dual_list_upto(faces, k, i)
    }
}

/// Compute the dual graph from a given embedding.
pub fn compute_dual_from_embedding(embedding: &PlanarEmbedding) -> (r: Option<DualGraph>)
    requires
        !faces_escape(emb_view(embedding@)),
    ensures
        r is None <==> faces_of(emb_view(embedding@)) is None,
        r matches Some(d) ==> is_dual_of(d, faces_of(emb_view(embedding@))->0),
{
    let faces = match compute_faces(embedding) {
        Some(f) => f,
        None => {
            return None;
        },
    };
    let ghost fs = emb_view(faces@);
    let n_faces = faces.len();
    if n_faces == 0 {
        let g = Graph::new(0);
        let fv: Vec<Vec<usize>> = Vec::new();
        let de: Vec<((usize, usize), (usize, usize))> = Vec::new();
        assert(g@ =~= dual_lists(fs));
        assert(emb_view(fv@) =~= fs);
        assert(de@ =~= dual_entries(fs, 0));
        return Some(DualGraph { graph: g, face_vertices: fv, dual_edges: de });
    }
    let mut dual = Graph::new(n_faces);
    let mut dual_edges: Vec<((usize, usize), (usize, usize))> = Vec::new();
    assert(dual_edges@ =~= dual_entries(fs, 0) + dual_row(fs, 0, 1));
    assert forall|k: int| 0 <= k < n_faces implies #[trigger] dual@[k] == dual_progress(fs, k, 0, 1) by {
        if k == 0 {
            assert(dual_list_upto(fs, 0, 1) =~= dual_list_upto(fs, 0, 0));
        }
    }
    // For each pair of faces, check if they share an edge
    let mut i: usize = 0;
    while i < n_faces
        invariant
            fs == emb_view(faces@),
            n_faces == fs.len(),
            i <= n_faces,
            dual.wf(),
            dual@.len() == n_faces,
            forall|k: int| 0 <= k < n_faces ==> #[trigger] dual@[k] == dual_progress(fs, k, i as int, i + 1),
            dual_edges@ == dual_entries(fs, i as int),
        decreases n_faces - i,
    {
        let mut j: usize = i + 1;
        while j < n_faces
            invariant
                fs == emb_view(faces@),
                n_faces == fs.len(),
                i < n_faces,
                i + 1 <= j <= n_faces,
                dual.wf(),
                dual@.len() == n_faces,
                forall|k: int| 0 <= k < n_faces ==> #[trigger] dual@[k] == dual_progress(fs, k, i as int, j as int),
                dual_edges@ == dual_entries(fs, i as int) + dual_row(fs, i as int, j as int),
            decreases n_faces - j,
        {
            assert(faces@[i as int]@ == fs[i as int]);
            assert(faces@[j as int]@ == fs[j as int]);
            let ghost d0 = dual@;
            if share_edge(&faces[i], &faces[j]) {
                proof {
                    assert(d0[i as int] == dual_list_upto(fs, i as int, j as int));
                    assert(d0[j as int] == dual_list_upto(fs, j as int, i as int));
                    if d0[i as int].contains(j) {
                        lemma_dual_list_below(fs, i as int, j as int, j);
                    }
                    if d0[j as int].contains(i) {
                        lemma_dual_list_below(fs, j as int, i as int, i);
                    }
                }
                dual.add_edge(i, j);
                proof {
                    assert(dual@ == add_edge_spec(d0, i, j));
                    assert forall|k: int| 0 <= k < n_faces implies #[trigger] dual@[k] == dual_progress(
                        fs,
                        k,
                        i as int,
                        j + 1,
                    ) by {
                        if k == i as int {
                            assert(dual_list_upto(fs, i as int, j + 1) == dual_list_upto(fs, i as int, j as int)
                                + seq![j]);
                        } else if k == j as int {
                            assert(dual_adjacent(fs, j as int, i as int));
                            assert(dual_list_upto(fs, j as int, i + 1) == dual_list_upto(fs, j as int, i as int)
                                + seq![i]);
                        }
                    }
                }
            } else {
                proof {
                    assert forall|k: int| 0 <= k < n_faces implies #[trigger] dual@[k] == dual_progress(
                        fs,
                        k,
                        i as int,
                        j + 1,
                    ) by {
                        if k == i as int {
                            assert(dual_list_upto(fs, i as int, j + 1) == dual_list_upto(fs, i as int, j as int));
                        } else if k == j as int {
                            assert(!dual_adjacent(fs, j as int, i as int));
                            assert(dual_list_upto(fs, j as int, i + 1) == dual_list_upto(fs, j as int, i as int));
                        }
                    }
                }
            }
            // Record every edge the two faces share
            let shared = shared_edges_of(&faces[i], &faces[j]);
            let ghost f = |e: (usize, usize)| (e, (i, j));
            let ghost base = dual_entries(fs, i as int) + dual_row(fs, i as int, j as int);
            assert(base == dual_edges@);
            let mut x: usize = 0;
            while x < shared.len()
                invariant
                    x <= shared@.len(),
                    dual_edges@ == base + shared@.take(x as int).map_values(f),
                    f == (|e: (usize, usize)| (e, (i, j))),
                decreases shared@.len() - x,
            {
                dual_edges.push((shared[x], (i, j)));
                assert(shared@.take(x + 1).map_values(f) =~= shared@.take(x as int).map_values(f).push(
                    (shared@[x as int], (i, j)),
                ));
                assert(dual_edges@ =~= base + shared@.take(x + 1).map_values(f));
                x = x + 1;
            }
            proof {
                assert(shared@.take(x as int) =~= shared@);
                assert(dual_row(fs, i as int, j + 1) == dual_row(fs, i as int, j as int) + shared@.map_values(f));
                assert(dual_edges@ =~= dual_entries(fs, i as int) + dual_row(fs, i as int, j + 1));
            }
            j = j + 1;
        }
        proof {
            assert(dual_entries(fs, i + 1) == dual_entries(fs, i as int) + dual_row(fs, i as int, n_faces as int));
            assert forall|k: int| 0 <= k < n_faces implies #[trigger] dual@[k] == dual_progress(
                fs,
                k,
                i + 1,
                i + 2,
            ) by {
                if k == i + 1 {
                    assert(dual_list_upto(fs, k, i + 2) == dual_list_upto(fs, k, i + 1));
                }
            }
        }
        i = i + 1;
    }
    assert(dual@ =~= dual_lists(fs));
    Some(DualGraph { graph: dual, face_vertices: faces, dual_edges })
}

/// Check if two faces share an edge.
fn share_edge(face1: &Vec<usize>, face2: &Vec<usize>) -> (r: bool)
    ensures
        r == faces_share_edge(face1@, face2@),
{
    let ghost f1 = face1@;
    let ghost f2 = face2@;
    let mut i: usize = 0;
    while i < face1.len()
        invariant
            f1 == face1@,
            f2 == face2@,
            i <= f1.len(),
            forall|k: int| 0 <= k < i ==> !edge_in_face(f2, #[trigger] cyc_edge(f1, k)),
        decreases f1.len() - i,
    {
        let u = face1[i];
        let v = face1[(i + 1) % face1.len()];
        assert(cyc_edge(f1, i as int) == (u, v));
        let mut j: usize = 0;
        while j < face2.len()
            invariant
                f1 == face1@,
                f2 == face2@,
                i < f1.len(),
                j <= f2.len(),
                cyc_edge(f1, i as int) == (u, v),
                forall|k: int| 0 <= k < j ==> !same_edge((u, v), #[trigger] cyc_edge(f2, k)),
            decreases f2.len() - j,
        {
            let a = face2[j];
            let b = face2[(j + 1) % face2.len()];
            assert(cyc_edge(f2, j as int) == (a, b));
            if (u == a && v == b) || (u == b && v == a) {
                assert(edge_in_face(f2, cyc_edge(f1, i as int)));
                return true;
            }
            j = j + 1;
        }
        i = i + 1;
    }
    false
}

/// Whether the boundary of `face` runs along `p`.
fn edge_on_face(face: &Vec<usize>, p: (usize, usize)) -> (r: bool)
    ensures
        r == edge_in_face(face@, p),
{
    let ghost f = face@;
    let mut j: usize = 0;
    while j < face.len()
        invariant
            f == face@,
            j <= f.len(),
            forall|k: int| 0 <= k < j ==> !same_edge(p, #[trigger] cyc_edge(f, k)),
        decreases f.len() - j,
    {
        let a = face[j];
        let b = face[(j + 1) % face.len()];
        assert(cyc_edge(f, j as int) == (a, b));
        if (p.0 == a && p.1 == b) || (p.0 == b && p.1 == a) {
            return true;
        }
        j = j + 1;
    }
    false
}

/// Every edge on both boundaries, smaller end first, each once, in the
/// order of the first face.
fn shared_edges_of(face1: &Vec<usize>, face2: &Vec<usize>) -> (r: Vec<(usize, usize)>)
    ensures
        r@ == shared_edges(face1@, face2@),
{
    let ghost f1 = face1@;
    let ghost f2 = face2@;
    let mut r: Vec<(usize, usize)> = Vec::new();
    let mut i: usize = 0;
    while i < face1.len()
        invariant
            f1 == face1@,
            f2 == face2@,
            i <= f1.len(),
            r@ == shared_upto(f1, f2, i as int),
        decreases f1.len() - i,
    {
        let u = face1[i];
        let v = face1[(i + 1) % face1.len()];
        assert(cyc_edge(f1, i as int) == (u, v));
        if edge_on_face(face2, (u, v)) {
            let e = if u <= v {
                (u, v)
            } else {
                (v, u)
            };
            assert(e == norm_pair(cyc_edge(f1, i as int)));
            if !pair_list_contains(&r, e) {
                r.push(e);
            }
        }
        i = i + 1;
    }
    r
}

/// The graph and its dual have as many edges and as many vertices.
pub open spec fn self_dual_counts(a: Seq<Seq<usize>>) -> bool {
    &&& planar(a)
    &&& num_edges(a) == num_edges(dual_lists(faces_of(first_planar_rotation(a))->0))
    &&& a.len() == faces_of(first_planar_rotation(a))->0.len()
}

/// `p` maps the vertices of `a` one to one onto those of `b`, so that two
/// vertices are adjacent in `a` exactly when their images are in `b`.
pub open spec fn is_isomorphism(a: Seq<Seq<usize>>, b: Seq<Seq<usize>>, p: Seq<usize>) -> bool {
    &&& a.len() == b.len()
    &&& p.len() == a.len()
    &&& forall|i: int| 0 <= i < p.len() ==> (#[trigger] p[i] as int) < b.len()
    &&& forall|i: int, j: int| 0 <= i < p.len() && 0 <= j < p.len() && i != j ==> p[i] != p[j]
    &&& forall|u: int, v: int|
        0 <= u < a.len() && 0 <= v < a.len() ==> (#[trigger] a[u].contains(v as usize) <==> b[p[u] as int].contains(
            p[v],
        ))
}

/// The graphs are isomorphic.
pub open spec fn isomorphic(a: Seq<Seq<usize>>, b: Seq<Seq<usize>>) -> bool {
    exists|p: Seq<usize>| #[trigger] is_isomorphism(a, b, p)
}

/// `q` extends the partial map `p`.
pub open spec fn extends(q: Seq<usize>, p: Seq<usize>) -> bool {
    p.len() <= q.len() && forall|i: int| 0 <= i < p.len() ==> q[i] == p[i]
}

/// `p` is a one-to-one partial map of the first vertices of `a` into `b`
/// that keeps adjacency among them.
pub open spec fn partial_iso(a: Seq<Seq<usize>>, b: Seq<Seq<usize>>, p: Seq<usize>) -> bool {
    &&& p.len() <= a.len()
    &&& forall|i: int| 0 <= i < p.len() ==> (#[trigger] p[i] as int) < b.len()
    &&& forall|i: int, j: int| 0 <= i < p.len() && 0 <= j < p.len() && i != j ==> p[i] != p[j]
    &&& forall|u: int, v: int|
        0 <= u < p.len() && 0 <= v < p.len() ==> (#[trigger] a[u].contains(v as usize) <==> b[p[u] as int].contains(
            p[v],
        ))
}

/// Whether mapping the next vertex `k` of `a` to `c` keeps adjacency with
/// the vertices mapped so far and with itself.
fn consistent(ga: &Graph, gb: &Graph, p: &Vec<usize>, c: usize) -> (r: bool)
    requires
        ga.wf(),
        gb.wf(),
        p@.len() < ga@.len(),
        c < gb@.len(),
        forall|i: int| 0 <= i < p@.len() ==> (#[trigger] p@[i] as int) < gb@.len(),
    ensures
        r == ((ga@[p@.len() as int].contains(p@.len() as usize) <==> gb@[c as int].contains(c)) && forall|u: int|
            0 <= u < p@.len() ==> (#[trigger] ga@[u].contains(p@.len() as usize) <==> gb@[p@[u] as int].contains(c))),
{
    let k = p.len();
    if ga.has_edge(k, k) != gb.has_edge(c, c) {
        return false;
    }
    let mut u: usize = 0;
    while u < k
        invariant
            ga.wf(),
            gb.wf(),
            k == p@.len(),
            k < ga@.len(),
            c < gb@.len(),
            forall|i: int| 0 <= i < p@.len() ==> (#[trigger] p@[i] as int) < gb@.len(),
            (ga@[k as int].contains(k) <==> gb@[c as int].contains(c)),
            u <= k,
            forall|x: int| 0 <= x < u ==> (#[trigger] ga@[x].contains(k) <==> gb@[p@[x] as int].contains(c)),
        decreases k - u,
    {
        assert((p@[u as int] as int) < gb@.len());
        if ga.has_edge(u, k) != gb.has_edge(p[u], c) {
            return false;
        }
        u = u + 1;
    }
    true
}

/// Whether the partial map `p` extends to an isomorphism from `ga` to `gb`.
fn extend_iso(ga: &Graph, gb: &Graph, p: &mut Vec<usize>, depth: usize) -> (r: bool)
    requires
        ga.wf(),
        gb.wf(),
        ga@.len() == gb@.len(),
        depth == old(p)@.len(),
        partial_iso(ga@, gb@, old(p)@),
    ensures
        final(p)@ == old(p)@,
        r == exists|q: Seq<usize>| is_isomorphism(ga@, gb@, q) && #[trigger] extends(q, old(p)@),
    decreases ga@.len() - depth,
{
    let ghost a = ga@;
    let ghost b = gb@;
    let ghost p0 = p@;
    let n = ga.vertex_count();
    let k = p.len();
    if k == n {
        proof {
            assert(is_isomorphism(a, b, p0));
            assert(extends(p0, p0));
        }
        return true;
    }
    let mut c: usize = 0;
    while c < n
        invariant
            ga.wf(),
            gb.wf(),
            a == ga@,
            b == gb@,
            n == a.len(),
            a.len() == b.len(),
            p@ == p0,
            p0 == old(p)@,
            k == p0.len(),
            depth == k,
            k < n,
            partial_iso(a, b, p0),
            c <= n,
            forall|q: Seq<usize>| is_isomorphism(a, b, q) && #[trigger] extends(q, p0) ==> q[k as int] >= c,
        decreases n - c,
    {
        let used = list_contains(p.as_slice(), c);
        if !used && consistent(ga, gb, p, c) {
            p.push(c);
            let ghost p1 = p@;
            proof {
                assert(p1 == p0.push(c));
                assert forall|u: int, v: int| 0 <= u < p1.len() && 0 <= v < p1.len() implies (#[trigger] a[u].contains(
                    v as usize,
                ) <==> b[p1[u] as int].contains(p1[v])) by {
                    if u < k && v < k {
                        assert(p1[u] == p0[u] && p1[v] == p0[v]);
                    } else if u < k {
                        assert(p1[u] == p0[u]);
                        assert(a[u].contains(k) <==> b[p0[u] as int].contains(c));
                        assert(a[u].contains(v as usize) <==> a[v].contains(u as usize));
                        assert(b[p0[u] as int].contains(c) <==> b[c as int].contains(p0[u]));
                    } else if v < k {
                        assert(p1[v] == p0[v]);
                        assert(a[v].contains(k) <==> b[p0[v] as int].contains(c));
                        assert(a[u].contains(v as usize) <==> a[v].contains(u as usize));
                        assert(b[c as int].contains(p0[v]) <==> b[p0[v] as int].contains(c));
                    }
                }
                assert forall|i: int, j: int| 0 <= i < p1.len() && 0 <= j < p1.len() && i != j implies p1[i]
                    != p1[j] by {
                    if i == k {
                        assert(p0.contains(p0[j]));
                    } else if j == k {
                        assert(p0.contains(p0[i]));
                    }
                }
                assert forall|i: int| 0 <= i < p1.len() implies (#[trigger] p1[i] as int) < b.len() by {
                    if i < k {
                        assert(p1[i] == p0[i]);
                    }
                }
            }
            let found = extend_iso(ga, gb, p, depth + 1);
            p.pop();
            proof {
                assert(p@ =~= p0);
            }
            if found {
                proof {
                    let q = choose|q: Seq<usize>| is_isomorphism(a, b, q) && #[trigger] extends(q, p1);
                    assert(extends(q, p0));
                }
                return true;
            }
            proof {
                assert forall|q: Seq<usize>| is_isomorphism(a, b, q) && #[trigger] extends(q, p0) implies q[k as int]
                    >= c + 1 by {
                    if q[k as int] == c {
                        assert(extends(q, p1));
                    }
                }
            }
        } else {
            proof {
                assert forall|q: Seq<usize>| is_isomorphism(a, b, q) && #[trigger] extends(q, p0) implies q[k as int]
                    >= c + 1 by {
                    if q[k as int] == c {
                        if used {
                            let i = choose|i: int| 0 <= i < p0.len() && p0[i] == c;
                            assert(q[i] == q[k as int]);
                        } else {
                            assert(a[k as int].contains(k) <==> b[c as int].contains(c));
                            assert forall|u: int| 0 <= u < k implies (#[trigger] a[u].contains(k) <==> b[p0[u] as int].contains(
                                c,
                            )) by {
                                assert(q[u] == p0[u]);
                            }
                        }
                    }
                }
            }
        }
        c = c + 1;
    }
    proof {
        assert forall|q: Seq<usize>| !(is_isomorphism(a, b, q) && #[trigger] extends(q, p0)) by {
            if is_isomorphism(a, b, q) && extends(q, p0) {
                assert((q[k as int] as int) < b.len());
            }
        }
    }
    false
}

/// Compute the self-dual graph properties.
///
/// A graph is self-dual if it is isomorphic to its dual: here the dual
/// that `compute_dual` builds, after a quick comparison of vertex and edge
/// counts.
pub fn is_self_dual(graph: &Graph) -> (r: bool)
    requires
        graph.wf(),
    ensures
        r == (self_dual_counts(graph@) && isomorphic(graph@, dual_lists(faces_of(first_planar_rotation(graph@))->0))),
{
    let dual_result = match compute_dual(graph) {
        Some(d) => d,
        None => {
            return false;
        },
    };
    let graph_edges = graph.edge_count();
    let dual_edges = dual_result.graph.edge_count();
    let graph_vertices = graph.vertex_count();
    let dual_vertices = dual_result.graph.vertex_count();
    if !(graph_edges == dual_edges && graph_vertices == dual_vertices) {
        return false;
    }
    let mut p: Vec<usize> = Vec::new();
    let r = extend_iso(graph, &dual_result.graph, &mut p, 0);
    proof {
        let a = graph@;
        let b = dual_result.graph@;
        if r {
            let q = choose|q: Seq<usize>| is_isomorphism(a, b, q) && #[trigger] extends(q, Seq::<usize>::empty());
        }
        if isomorphic(a, b) {
            let q = choose|q: Seq<usize>| #[trigger] is_isomorphism(a, b, q);
            assert(extends(q, Seq::<usize>::empty()));
        }
    }
    r
}

/// Two face boundaries share an edge exactly when some undirected edge,
/// smaller end first, lies on both.
pub proof fn lemma_share_edge_iff(f1: Seq<usize>, f2: Seq<usize>)
    ensures
        faces_share_edge(f1, f2) <==> exists|p: (usize, usize)| #[trigger] edge_on_both(f1, f2, p),
{
    if faces_share_edge(f1, f2) {
        let i = choose|i: int| 0 <= i < f1.len() && edge_in_face(f2, #[trigger] cyc_edge(f1, i));
        let c = cyc_edge(f1, i);
        let p = norm_pair(c);
        assert(same_edge(p, cyc_edge(f1, i)));
        let j = choose|j: int| 0 <= j < f2.len() && same_edge(c, #[trigger] cyc_edge(f2, j));
        assert(same_edge(p, cyc_edge(f2, j)));
        assert(edge_on_both(f1, f2, p));
    }
    if exists|p: (usize, usize)| #[trigger] edge_on_both(f1, f2, p) {
        let p = choose|p: (usize, usize)| #[trigger] edge_on_both(f1, f2, p);
        let k = choose|k: int| 0 <= k < f1.len() && same_edge(p, #[trigger] cyc_edge(f1, k));
        let j = choose|j: int| 0 <= j < f2.len() && same_edge(p, #[trigger] cyc_edge(f2, j));
        assert(same_edge(cyc_edge(f1, k), cyc_edge(f2, j)));
        assert(edge_in_face(f2, cyc_edge(f1, k)));
    }
}

/// Two dual vertices are adjacent exactly when they are distinct faces and
/// some undirected edge lies on the boundaries of both; every such pair
/// `i < j` then has an entry `(p, (i, j))` in the edge map.
pub proof fn lemma_dual_adjacent_iff_shared_edge(faces: Seq<Seq<usize>>, i: int, j: usize)
    requires
        0 <= i < faces.len() <= usize::MAX,
        (j as int) < faces.len(),
    ensures
        dual_lists(faces)[i].contains(j) <==> (i != j as int && exists|p: (usize, usize)|
            #[trigger] edge_on_both(faces[i], faces[j as int], p)),
        i < j as int && dual_lists(faces)[i].contains(j) ==> exists|p: (usize, usize)|
            #[trigger] dual_entries(faces, faces.len() as int).contains((p, (i as usize, j))),
{
    lemma_dual_adjacency(faces, i, j);
    lemma_share_edge_iff(faces[i], faces[j as int]);
    lemma_share_edge_iff(faces[j as int], faces[i]);
    assert forall|p: (usize, usize)| edge_on_both(faces[i], faces[j as int], p) <==> edge_on_both(
        faces[j as int],
        faces[i],
        p,
    ) by {}
    if i < j as int && dual_lists(faces)[i].contains(j) {
        let p = choose|p: (usize, usize)| #[trigger] edge_on_both(faces[i], faces[j as int], p);
        lemma_dual_entries_exact(faces, (p, (i as usize, j)));
        assert(dual_entries(faces, faces.len() as int).contains((p, (i as usize, j))));
    }
}

} // verus!
