//! Planarity testing.
//!
//! Provides algorithms to determine if a graph is planar (can be drawn
//! on a plane without edge crossings).

use vstd::prelude::*;
use crate::{num_edges, Graph};
use crate::text::{decimal, to_decimal};
use crate::kuratowski::{contains_k33, contains_k5, has_k33, has_k5};
use crate::euler::euler_planarity_bound;
use crate::rotation::{first_planar_rotation, cyclic_order, is_neighbour, planar, planar_rotation_of};
use crate::embedding::emb_view;

verus! {

/// Result of planarity testing.
#[derive(Debug, Clone)]
pub struct PlanarityResult {
    /// Whether the graph is planar.
    pub is_planar: bool,
    /// Reason if not planar.
    pub reason: Option<String>,
}

/// The message for a graph with more than `3n - 6` edges.
pub open spec fn too_many_edges_text(e: nat, n: nat) -> Seq<char> {
    "Too many edges: "@ + decimal(e) + " > 3×"@ + decimal(n) + " - 6 = "@ + decimal((3 * n - 6) as nat)
}

/// The message for a triangle-free graph with more than `2n - 4` edges.
pub open spec fn triangle_free_text(e: nat, n: nat) -> Seq<char> {
    "Triangle-free with too many edges: "@ + decimal(e) + " > 2×"@ + decimal(n) + " - 4 = "@
        + decimal((2 * n - 4) as nat)
}

/// The reason given for a graph that is not planar, in the order the
/// checks are made: too many edges, too many edges for a triangle-free
/// graph, K₅ as a subgraph, K₃,₃ as a subgraph, or none of these.
pub open spec fn rejection_reason(a: Seq<Seq<usize>>) -> Seq<char> {
    let n = a.len();
    let e = num_edges(a);
    if n > 4 && e > 3 * n - 6 {
        too_many_edges_text(e, n)
    } else if n > 4 && !has_triangle_spec(a) && e > 2 * n - 4 {
        triangle_free_text(e, n)
    } else if has_k5(a) {
        "Contains K₅ subdivision"@
    } else if has_k33(a) {
        "Contains K₃,₃ subdivision"@
    } else {
        "Cannot find planar embedding"@
    }
}

/// The verdict of `is_planar`: planar with no reason, or not planar with
/// the reason.
pub open spec fn planarity_verdict(a: Seq<Seq<usize>>) -> (bool, Option<Seq<char>>) {
    if planar(a) {
        (true, None)
    } else {
        (false, Some(rejection_reason(a)))
    }
}

/// The result carries the verdict and reason given.
pub open spec fn result_is(r: PlanarityResult, v: (bool, Option<Seq<char>>)) -> bool {
    &&& r.is_planar == v.0
    &&& r.reason is Some <==> v.1 is Some
    &&& r.reason matches Some(s) ==> v.1 == Some(s@)
}

/// At most two vertices, or at most `3n - 6` edges.
pub open spec fn euler_necessary(a: Seq<Seq<usize>>) -> bool {
    a.len() <= 2 || num_edges(a) <= 3 * a.len() - 6
}

/// Every graph that passes the Euler-based test of `planarity_from_euler`
/// passes `satisfies_euler_necessary`.
pub proof fn lemma_euler_tests_agree(a: Seq<Seq<usize>>)
    requires
        euler_planarity_bound(a),
    ensures
        euler_necessary(a),
{
}

/// Quick check: satisfies Euler's formula necessary conditions.
pub fn satisfies_euler_necessary(graph: &Graph) -> (r: bool)
    requires
        graph.wf(),
    ensures
        r == euler_necessary(graph@),
{
    let n = graph.vertex_count();
    let e = graph.edge_count();
    if n <= 2 {
        return true;
    }
    (e as u128) <= 3 * (n as u128) - 6
}

/// `u < v < w` form a triangle.
pub open spec fn is_triangle(a: Seq<Seq<usize>>, u: usize, v: usize, w: usize) -> bool {
    &&& u < v < w
    &&& (u as int) < a.len()
    &&& (v as int) < a.len()
    &&& a[u as int].contains(v)
    &&& a[v as int].contains(w)
    &&& a[u as int].contains(w)
}

/// The graph has three mutually adjacent vertices.
pub open spec fn has_triangle_spec(a: Seq<Seq<usize>>) -> bool {
    exists|u: usize, v: usize, w: usize| #[trigger] is_triangle(a, u, v, w)
}

/// An undirected edge written with its smaller end first.
pub open spec fn norm_pair(e: (usize, usize)) -> (usize, usize) {
    if e.0 <= e.1 {
        e
    } else {
        (e.1, e.0)
    }
}

/// Each vertex `x` lists `(x, y)` exactly once for every neighbour `y`
/// other than `x`.
pub open spec fn lists_every_edge(a: Seq<Seq<usize>>, e: Seq<Seq<(usize, usize)>>) -> bool {
    &&& e.len() == a.len()
    &&& forall|x: int| 0 <= x < e.len() ==> (#[trigger] e[x]).no_duplicates()
    &&& forall|x: int, z: usize, y: usize|
        0 <= x < e.len() ==> (#[trigger] e[x].contains((z, y)) <==> (z as int == x && y as int != x
            && a[x].contains(y)))
}

fn has_triangle(graph: &Graph) -> (r: bool)
    requires
        graph.wf(),
    ensures
        r == has_triangle_spec(graph@),
{
    let ghost a = graph@;
    let n = graph.vertex_count();
    let mut u: usize = 0;
    while u < n
        invariant
            graph.wf(),
            a == graph@,
            n == a.len(),
            u <= n,
            forall|x: usize, y: usize, z: usize| x < u ==> !#[trigger] is_triangle(a, x, y, z),
        decreases n - u,
    {
        let nu = graph.neighbors(u);
        let mut i: usize = 0;
        while i < nu.len()
            invariant
                graph.wf(),
                a == graph@,
                n == a.len(),
                u < n,
                nu@ == a[u as int],
                i <= nu@.len(),
                forall|x: usize, y: usize, z: usize| x < u ==> !#[trigger] is_triangle(a, x, y, z),
                forall|k: int, z: usize| 0 <= k < i ==> !#[trigger] is_triangle(a, u, nu@[k], z),
            decreases nu@.len() - i,
        {
            let v = nu[i];
            assert(a[u as int][i as int] == v);
            if v > u {
                let nv = graph.neighbors(v);
                let mut k: usize = 0;
                while k < nv.len()
                    invariant
                        graph.wf(),
                        a == graph@,
                        n == a.len(),
                        u < n,
                        v < n,
                        u < v,
                        a[u as int].contains(v),
                        nv@ == a[v as int],
                        k <= nv@.len(),
                        forall|m: int| 0 <= m < k ==> !#[trigger] is_triangle(a, u, v, nv@[m]),
                    decreases nv@.len() - k,
                {
                    let w = nv[k];
                    if w > v && graph.has_edge(u, w) {
                        assert(a[v as int][k as int] == w);
                        assert(is_triangle(a, u, v, w));
                        return true;
                    }
                    k = k + 1;
                }
                assert forall|z: usize| !#[trigger] is_triangle(a, u, v, z) by {
                    if is_triangle(a, u, v, z) {
                        let m = choose|m: int| 0 <= m < nv@.len() && nv@[m] == z;
                        assert(!is_triangle(a, u, v, nv@[m]));
                    }
                }
            }
            i = i + 1;
        }
        assert forall|y: usize, z: usize| !#[trigger] is_triangle(a, u, y, z) by {
            if is_triangle(a, u, y, z) {
                let m = choose|m: int| 0 <= m < nu@.len() && nu@[m] == y;
                assert(!is_triangle(a, u, nu@[m], z));
            }
        }
        u = u + 1;
    }
    false
}

/// Each vertex `u` lists `(u, v)` for the neighbours `v` in the cyclic
/// order of `r`.
pub open spec fn rotation_pairs(r: Seq<Seq<usize>>) -> Seq<Seq<(usize, usize)>> {
    Seq::new(r.len(), |u: int| r[u].map_values(|w: usize| (u as usize, w)))
}

/// Check if a graph is planar: whether some rotation system of it meets
/// Euler's formula, which is exactly when it can be drawn in the plane
/// without crossings.
///
/// A graph that is not planar gets a reason: too many edges for Euler's
/// formula (e ≤ 3v - 6, or e ≤ 2v - 4 without triangles), K₅ or K₃,₃ as a
/// subgraph, or failing those, that no planar embedding was found.
pub fn is_planar(graph: &Graph) -> (r: PlanarityResult)
    requires
        graph.wf(),
    ensures
        result_is(r, planarity_verdict(graph@)),
        r.is_planar <==> r.reason is None,
        r.is_planar <==> planar(graph@),
{
    let n = graph.vertex_count();
    let e = graph.edge_count();
    // Exact test: search for an embedding
    let attempt = try_embedding(graph);
    if attempt.is_planar {
        return attempt;
    }
    let nn = n as u128;
    let ee = e as u128;
    // Euler's formula necessary condition: e ≤ 3n - 6
    if n > 4 && ee > 3 * nn - 6 {
        let mut msg = String::from_str("Too many edges: ");
        msg.append(to_decimal(ee).as_str());
        msg.append(" > 3×");
        msg.append(to_decimal(nn).as_str());
        msg.append(" - 6 = ");
        msg.append(to_decimal(3 * nn - 6).as_str());
        return PlanarityResult { is_planar: false, reason: Some(msg) };
    }
    // For graphs with no triangles: e ≤ 2n - 4
    if n > 4 && !has_triangle(graph) && ee > 2 * nn - 4 {
        let mut msg = String::from_str("Triangle-free with too many edges: ");
        msg.append(to_decimal(ee).as_str());
        msg.append(" > 2×");
        msg.append(to_decimal(nn).as_str());
        msg.append(" - 4 = ");
        msg.append(to_decimal(2 * nn - 4).as_str());
        return PlanarityResult { is_planar: false, reason: Some(msg) };
    }
    // K₅ or K₃,₃ as a subgraph
    if contains_k5(graph) {
        return PlanarityResult {
            is_planar: false,
            reason: Some(String::from_str("Contains K₅ subdivision")),
        };
    }
    if contains_k33(graph) {
        return PlanarityResult {
            is_planar: false,
            reason: Some(String::from_str("Contains K₃,₃ subdivision")),
        };
    }
    attempt
}

fn try_embedding(graph: &Graph) -> (r: PlanarityResult)
    requires
        graph.wf(),
    ensures
        result_is(
            r,
            if planar(graph@) {
                (true, None)
            } else {
                (false, Some("Cannot find planar embedding"@))
            },
        ),
{
    // Try to construct a planar embedding
    match simple_embedding(graph) {
        Some(_) => PlanarityResult { is_planar: true, reason: None },
        None => PlanarityResult {
            is_planar: false,
            reason: Some(String::from_str("Cannot find planar embedding")),
        },
    }
}

/// Planar embedding as lists of edges.
///
/// Returns `Some(embedding)` if the graph is planar, `None` otherwise: each
/// vertex `u` lists `(u, v)` for its neighbours `v` (other than itself) in
/// the cyclic order of the first planar rotation system, the one
/// `compute_embedding` gives.
pub fn simple_embedding(graph: &Graph) -> (r: Option<Vec<Vec<(usize, usize)>>>)
    requires
        graph.wf(),
    ensures
        r is None <==> !planar(graph@),
        r matches Some(e) ==> e@.map_values(|l: Vec<(usize, usize)>| l@) == rotation_pairs(
            first_planar_rotation(graph@),
        ),
        r matches Some(e) ==> lists_every_edge(graph@, e@.map_values(|l: Vec<(usize, usize)>| l@)),
{
    let ghost a = graph@;
    let rot = match planar_rotation_of(graph) {
        Some(r) => r,
        None => {
            return None;
        },
    };
    let ghost rv = emb_view(rot@);
    let mut lists: Vec<Vec<(usize, usize)>> = Vec::new();
    let mut u: usize = 0;
    while u < rot.len()
        invariant
            rv == emb_view(rot@),
            u <= rv.len(),
            lists@.len() == u,
            forall|x: int| 0 <= x < u ==> (#[trigger] lists@[x])@ == rv[x].map_values(|w: usize| (x as usize, w)),
        decreases rv.len() - u,
    {
        assert(rot@[u as int]@ == rv[u as int]);
        let mut row: Vec<(usize, usize)> = Vec::new();
        let mut j: usize = 0;
        while j < rot[u].len()
            invariant
                rv == emb_view(rot@),
                u < rv.len(),
                rot@[u as int]@ == rv[u as int],
                j <= rv[u as int].len(),
                row@ == rv[u as int].take(j as int).map_values(|w: usize| (u, w)),
            decreases rv[u as int].len() - j,
        {
            row.push((u, rot[u][j]));
            assert(rv[u as int].take(j + 1).map_values(|w: usize| (u, w)) =~= rv[u as int].take(j as int).map_values(
                |w: usize| (u, w),
            ).push((u, rv[u as int][j as int])));
            j = j + 1;
        }
        assert(rv[u as int].take(j as int) =~= rv[u as int]);
        lists.push(row);
        u = u + 1;
    }
    proof {
        let ev = lists@.map_values(|l: Vec<(usize, usize)>| l@);
        assert(ev =~= rotation_pairs(rv));
        assert forall|x: int| 0 <= x < ev.len() implies (#[trigger] ev[x]).no_duplicates() by {
            assert(cyclic_order(a, x, rv[x]));
            assert forall|p: int, q: int| 0 <= p < q < ev[x].len() implies ev[x][p] != ev[x][q] by {
                assert(ev[x][p] == (x as usize, rv[x][p]) && ev[x][q] == (x as usize, rv[x][q]));
            }
        }
        assert forall|x: int, z: usize, y: usize| 0 <= x < ev.len() implies (#[trigger] ev[x].contains((z, y))
            <==> (z as int == x && y as int != x && a[x].contains(y))) by {
            assert(cyclic_order(a, x, rv[x]));
            if ev[x].contains((z, y)) {
                let i = choose|i: int| 0 <= i < ev[x].len() && ev[x][i] == (z, y);
                assert(ev[x][i] == (x as usize, rv[x][i]));
                assert(rv[x].contains(rv[x][i]));
            }
            if z as int == x && y as int != x && a[x].contains(y) {
                assert(is_neighbour(a, x, y));
                assert(rv[x].contains(y));
                let i = choose|i: int| 0 <= i < rv[x].len() && rv[x][i] == y;
                assert(ev[x][i] == (z, y));
            }
        }
    }
    Some(lists)
}

} // verus!
