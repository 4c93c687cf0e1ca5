//! Euler's formula verification and face counting.
//!
//! Euler's formula for planar graphs: V - E + F = 2
//! where V = vertices, E = edges, F = faces.

use vstd::prelude::*;
use crate::counting::lemma_edges_span_components;
use crate::{adj_wf, edge_list, lemma_edge_list_contains, num_edges, Graph};
use crate::paths::{any_vertex, lemma_reach_trans, count_true, lemma_count_true_bound, lemma_count_true_set, lemma_reach_closed, lemma_reach_refl, lemma_reach_step, reachable};

verus! {

/// Result of Euler's formula computation.
#[derive(Debug, Clone)]
pub struct EulerResult {
    /// Number of vertices.
    pub vertices: usize,
    /// Number of edges.
    pub edges: usize,
    /// Number of faces (including the outer face).
    pub faces: usize,
    /// Euler characteristic: V - E + F.
    pub euler_characteristic: i64,
    /// Whether Euler's formula is satisfied.
    pub satisfies_euler: bool,
}

/// The face count Euler's formula gives, `F = E - V + 1 + C`, at least 1.
pub open spec fn euler_faces(a: Seq<Seq<usize>>) -> int {
    let c = num_components(a);
    let f = if c == 0 {
        0
    } else {
        num_edges(a) - a.len() + 1 + c
    };
    if f < 1 {
        1
    } else {
        f
    }
}

/// `V - E + F` with the face count above.
pub open spec fn euler_char(a: Seq<Seq<usize>>) -> int {
    a.len() - num_edges(a) + euler_faces(a)
}

/// `V - E + F = 2` for at most one component, `1 + C` otherwise.
pub open spec fn euler_holds(a: Seq<Seq<usize>>) -> bool {
    let c = num_components(a);
    if c <= 1 {
        euler_char(a) == 2
    } else {
        euler_char(a) == 1 + c
    }
}

/// The counts fit the signed arithmetic of the formula.
pub open spec fn euler_in_range(a: Seq<Seq<usize>>) -> bool {
    a.len() + num_edges(a) < i64::MAX
}

/// No smaller vertex reaches `s`: `s` is the least vertex of its component.
pub open spec fn is_component_root(a: Seq<Seq<usize>>, s: usize) -> bool {
    forall|u: usize| u < s ==> !#[trigger] reachable(a, u, s)
}

/// The number of component roots among vertices `0..k`.
pub open spec fn count_roots(a: Seq<Seq<usize>>, k: int) -> nat
    decreases k,
{
    if k <= 0 {
        0
    } else {
        count_roots(a, k - 1) + if is_component_root(a, (k - 1) as usize) {
            1nat
        } else {
            0nat
        }
    }
}

/// The number of connected components: one per least vertex of a component.
pub open spec fn num_components(a: Seq<Seq<usize>>) -> nat {
    count_roots(a, a.len() as int)
}

/// Some vertex below `k` reaches `w`.
pub open spec fn reached_before(a: Seq<Seq<usize>>, k: int, w: usize) -> bool {
    exists|u: usize| u < k && #[trigger] reachable(a, u, w)
}

proof fn lemma_count_roots_bound(a: Seq<Seq<usize>>, k: int)
    requires
        k >= 0,
    ensures
        count_roots(a, k) <= k,
    decreases k,
{
    if k > 0 {
        lemma_count_roots_bound(a, k - 1);
    }
}

/// Every edge joins two distinct vertices, so a graph with an edge has two vertices.
proof fn lemma_edge_needs_two(a: Seq<Seq<usize>>)
    requires
        adj_wf(a),
        a.len() <= usize::MAX,
        num_edges(a) > 0,
    ensures
        a.len() >= 2,
        exists|x: usize, y: usize| x < y && (y as int) < a.len() && a[x as int].contains(y),
{
    let e = edge_list(a)[0];
    assert(edge_list(a).contains(e));
    lemma_edge_list_contains(a, e.0, e.1);
    let i = choose|i: int| 0 <= i < a[e.0 as int].len() && a[e.0 as int][i] == e.1;
    assert(a[e.0 as int][i] < a.len());
}

/// A vertex reached from a smaller one is no component root, so a graph
/// with an edge has fewer components than vertices.
proof fn lemma_fewer_components(a: Seq<Seq<usize>>)
    requires
        adj_wf(a),
        a.len() <= usize::MAX,
        num_edges(a) > 0,
    ensures
        num_components(a) < a.len(),
{
    lemma_edge_needs_two(a);
    let (x, y) = choose|x: usize, y: usize| x < y && (y as int) < a.len() && a[x as int].contains(y);
    let all = any_vertex();
    lemma_reach_refl(a, all, x);
    lemma_reach_step(a, all, x, x, y);
    assert(!is_component_root(a, y)) by {
        assert(reachable(a, x, y));
    }
    lemma_count_roots_below(a, a.len() as int, y);
}

proof fn lemma_count_roots_below(a: Seq<Seq<usize>>, k: int, y: usize)
    requires
        0 <= y < k,
        !is_component_root(a, y),
    ensures
        count_roots(a, k) < k,
    decreases k,
{
    if k - 1 == y {
        lemma_count_roots_bound(a, k - 1);
    } else {
        lemma_count_roots_below(a, k - 1, y);
    }
}

/// A graph with a vertex has a component.
proof fn lemma_some_component(a: Seq<Seq<usize>>)
    requires
        a.len() > 0,
    ensures
        num_components(a) >= 1,
{
    lemma_count_roots_first(a, a.len() as int);
}

proof fn lemma_count_roots_first(a: Seq<Seq<usize>>, k: int)
    requires
        k >= 1,
    ensures
        count_roots(a, k) >= 1,
    decreases k,
{
    if k > 1 {
        lemma_count_roots_first(a, k - 1);
    } else {
        assert(is_component_root(a, 0));
    }
}

/// Euler's formula for graphs with at least one vertex: with `C` components
/// (`1 <= C <= V`), the face count is `E - V + 1 + C` with no rounding up,
/// `V - E + F = 1 + C`, and the formula is reported as holding.
pub proof fn lemma_euler_formula_holds(a: Seq<Seq<usize>>)
    requires
        adj_wf(a),
        0 < a.len() <= usize::MAX,
    ensures
        1 <= num_components(a) <= a.len(),
        euler_faces(a) == num_edges(a) - a.len() + 1 + num_components(a),
        euler_char(a) == 1 + num_components(a),
        euler_holds(a),
{
    lemma_some_component(a);
    lemma_count_roots_bound(a, a.len() as int);
    lemma_edges_span_components(a);
}

/// Compute Euler's formula for a planar graph.
///
/// Uses the formula V - E + F = 2 for connected planar graphs.
pub fn euler_formula(graph: &Graph) -> (r: EulerResult)
    requires
        graph.wf(),
        euler_in_range(graph@),
    ensures
        r.vertices == graph@.len(),
        r.edges == num_edges(graph@),
        r.faces == euler_faces(graph@),
        r.euler_characteristic == euler_char(graph@),
        r.satisfies_euler == euler_holds(graph@),
        r.vertices > 0 ==> r.euler_characteristic == 1 + num_components(graph@),
        r.satisfies_euler <==> r.vertices > 0,
{
    let ghost a = graph@;
    let v = graph.vertex_count();
    proof {
        if v > 0 {
            lemma_euler_formula_holds(a);
        } else {
            assert(num_edges(a) == 0);
            assert(num_components(a) == 0);
        }
    }
    let e = graph.edge_count();
    // For a planar embedding: F = E - V + 2 (for connected graphs)
    let components = count_components(graph);
    proof {
        lemma_count_roots_bound(a, a.len() as int);
        if v > 0 {
            lemma_some_component(a);
        }
        if e > 0 {
            lemma_fewer_components(a);
        }
    }
    let f: i64 = if components == 0 {
        0
    } else {
        // Euler's formula for disconnected: V - E + F = 1 + C
        // So F = E - V + 1 + C
        e as i64 - v as i64 + 1 + components as i64
    };
    let f: i64 = if f < 1 { 1 } else { f };
    assert(1 <= f && (f <= e || f == 1));
    let f = f as usize;
    assert(f as i64 <= e || f == 1);
    let euler_char = v as i64 - e as i64 + f as i64;
    // For connected planar graph: euler_char should be 2
    let satisfies = if components <= 1 {
        euler_char == 2
    } else {
        euler_char == (1 + components as i64)
    };
    EulerResult {
        vertices: v,
        edges: e,
        faces: f,
        euler_characteristic: euler_char,
        satisfies_euler: satisfies,
    }
}

/// Verify that a graph satisfies Euler's formula.
pub fn verifies_euler(graph: &Graph) -> (r: bool)
    requires
        graph.wf(),
        euler_in_range(graph@),
    ensures
        r == euler_holds(graph@),
        r == (graph@.len() > 0),
{
    euler_formula(graph).satisfies_euler
}

/// `n(n-1)/2` below three vertices, `3n - 6` from three on.
pub open spec fn planar_edge_limit(n: int) -> int {
    if n < 3 {
        n * (n - 1) / 2
    } else {
        3 * n - 6
    }
}

/// `n(n-1)/2` below three vertices, `2n - 4` from three on.
pub open spec fn triangle_free_edge_limit(n: int) -> int {
    if n < 3 {
        n * (n - 1) / 2
    } else {
        2 * n - 4
    }
}

/// Compute the maximum number of edges in a planar graph with `n` vertices.
pub fn max_edges_planar(n: usize) -> (r: usize)
    requires
        3 * n <= usize::MAX,
    ensures
        r == planar_edge_limit(n as int),
{
    if n == 0 {
        assert(0int * (0int - 1) == 0) by (nonlinear_arith);
        0
    } else if n < 3 {
        assert(n * (n - 1) <= 2) by (nonlinear_arith)
            requires
                1 <= n < 3,
        ;
        n * (n - 1) / 2
    } else {
        3 * n - 6
    }
}

/// Compute the maximum number of edges in a triangle-free planar graph.
pub fn max_edges_triangle_free_planar(n: usize) -> (r: usize)
    requires
        2 * n <= usize::MAX,
    ensures
        r == triangle_free_edge_limit(n as int),
{
    if n == 0 {
        assert(0int * (0int - 1) == 0) by (nonlinear_arith);
        0
    } else if n < 3 {
        assert(n * (n - 1) <= 2) by (nonlinear_arith)
            requires
                1 <= n < 3,
        ;
        n * (n - 1) / 2
    } else {
        2 * n - 4
    }
}

/// `E - V + 2` when there are edges and at least as many as vertices, else 1.
pub open spec fn min_faces_count(a: Seq<Seq<usize>>) -> int {
    if num_edges(a) == 0 {
        1
    } else if num_edges(a) >= a.len() {
        num_edges(a) - a.len() + 2
    } else {
        1
    }
}

/// For a connected graph, the minimum face count and the face count of
/// Euler's formula agree.
pub proof fn lemma_min_faces_connected(a: Seq<Seq<usize>>)
    requires
        adj_wf(a),
        a.len() <= usize::MAX,
        num_components(a) == 1,
    ensures
        min_faces_count(a) == euler_faces(a),
{
    lemma_edges_span_components(a);
    lemma_count_roots_bound(a, a.len() as int);
}

/// Compute the minimum number of faces for a connected planar graph.
pub fn min_faces(graph: &Graph) -> (r: usize)
    requires
        graph.wf(),
    ensures
        r == min_faces_count(graph@),
{
    if graph.edge_count() == 0 {
        return 1;
    }
    // For connected planar graph: F = E - V + 2
    let v = graph.vertex_count();
    let e = graph.edge_count();
    proof {
        lemma_edge_needs_two(graph@);
    }
    if e >= v {
        e - v + 2
    } else {
        1
    }
}

/// Compute the Euler genus: 2 - V + E - F.
pub fn euler_genus(graph: &Graph) -> (r: i64)
    requires
        graph.wf(),
        euler_in_range(graph@),
    ensures
        r == 2 - euler_char(graph@),
        graph@.len() > 0 ==> r == 1 - num_components(graph@),
{
    let result = euler_formula(graph);
    proof {
        if graph@.len() > 0 {
            lemma_euler_formula_holds(graph@);
        }
    }
    2 - result.euler_characteristic
}

/// `c` colours the two ends of every edge differently.
pub open spec fn proper_two_coloring(a: Seq<Seq<usize>>, c: spec_fn(usize) -> bool) -> bool {
    forall|u: usize, v: usize|
        (u as int) < a.len() && #[trigger] a[u as int].contains(v) ==> c(u) != c(v)
}

/// The graph has a proper two-colouring.
pub open spec fn bipartite(a: Seq<Seq<usize>>) -> bool {
    exists|c: spec_fn(usize) -> bool| #[trigger] proper_two_coloring(a, c)
}

/// What `planarity_from_euler` decides: at most two vertices, or at most
/// `3n - 6` edges and, when bipartite, at most `2n - 4`.
pub open spec fn euler_planarity_bound(a: Seq<Seq<usize>>) -> bool {
    let n = a.len();
    let e = num_edges(a);
    n <= 2 || (e <= 3 * n - 6 && !(bipartite(a) && e > 2 * n - 4))
}

/// Check if a graph satisfies the necessary planarity conditions from Euler's formula.
pub fn planarity_from_euler(graph: &Graph) -> (r: bool)
    requires
        graph.wf(),
    ensures
        r == euler_planarity_bound(graph@),
{
    let n = graph.vertex_count();
    let e = graph.edge_count();
    if n <= 2 {
        return true;
    }
    let nn = n as u128;
    let ee = e as u128;
    // Necessary condition: e ≤ 3v - 6
    if ee > 3 * nn - 6 {
        return false;
    }
    // For bipartite (triangle-free): e ≤ 2v - 4
    if is_bipartite(graph) && ee > 2 * nn - 4 && n >= 3 {
        return false;
    }
    true
}

/// Count the number of connected components.
pub fn count_components(graph: &Graph) -> (r: usize)
    requires
        graph.wf(),
    ensures
        r == num_components(graph@),
{
    let ghost a = graph@;
    let n = graph.vertex_count();
    if n == 0 {
        return 0;
    }
    let mut visited: Vec<bool> = vec![false; n];
    let mut components: usize = 0;
    let ghost all = any_vertex();
    let mut start: usize = 0;
    assert forall|w: usize| w < n implies (visited@[w as int] <==> reached_before(a, 0, w)) by {}
    while start < n
        invariant
            graph.wf(),
            a == graph@,
            n == a.len(),
            all == any_vertex(),
            start <= n,
            visited@.len() == n,
            forall|w: usize| w < n ==> (visited@[w as int] <==> reached_before(a, start as int, w)),
            components == count_roots(a, start as int),
        decreases n - start,
    {
        proof {
            lemma_count_roots_bound(a, start as int);
        }
        if visited[start] {
            assert(!is_component_root(a, start));
            proof {
                assert forall|w: usize| w < n implies (visited@[w as int] <==> reached_before(
                    a,
                    start + 1,
                    w,
                )) by {
                    if reached_before(a, start + 1, w) {
                        let u = choose|u: usize| u < start + 1 && #[trigger] reachable(a, u, w);
                        if u == start {
                            let x = choose|x: usize| x < start && #[trigger] reachable(a, x, start);
                            lemma_reach_trans(a, all, x, start, w);
                            assert(reachable(a, x, w));
                        }
                    }
                }
            }
            start = start + 1;
            continue;
        }
        assert(is_component_root(a, start)) by {
            assert forall|u: usize| u < start implies !#[trigger] reachable(a, u, start) by {
                if reachable(a, u, start) {
                    assert(reached_before(a, start as int, start));
                }
            }
        }
        components = components + 1;
        let mut stack: Vec<usize> = vec![start];
        visited.set(start, true);
        proof {
            lemma_reach_refl(a, all, start);
            assert forall|v: usize, w: usize|
                v < n && visited@[v as int] && !stack@.contains(v) && #[trigger] a[v as int].contains(w)
                implies visited@[w as int] by {
                assert(v != start);
                assert(reached_before(a, start as int, v));
                let u = choose|u: usize| u < start && #[trigger] reachable(a, u, v);
                assert(w < n);
                lemma_reach_step(a, all, u, v, w);
                assert(reachable(a, u, w));
                assert(reached_before(a, start as int, w));
            }
        }
        while stack.len() > 0
            invariant
                graph.wf(),
                a == graph@,
                n == a.len(),
                all == any_vertex(),
                start < n,
                visited@.len() == n,
                visited@[start as int],
                forall|i: int| 0 <= i < stack@.len() ==> stack@[i] < n && visited@[stack@[i] as int],
                forall|w: usize| w < n && reached_before(a, start as int, w) ==> visited@[w as int],
                forall|w: usize|
                    w < n && visited@[w as int] ==> reached_before(a, start as int, w) || reachable(
                        a,
                        start,
                        w,
                    ),
                forall|v: usize, w: usize|
                    v < n && visited@[v as int] && !stack@.contains(v) && #[trigger] a[v as int].contains(
                        w,
                    ) ==> visited@[w as int],
            decreases n - count_true(visited@), stack@.len(),
        {
            let ghost old_stack = stack@;
            let u = stack.pop().unwrap();
            let ghost c0 = count_true(visited@);
            let ghost s0 = stack@;
            proof {
                assert(old_stack =~= s0.push(u));
                assert forall|v: usize, w: usize|
                    v < n && v != u && visited@[v as int] && !stack@.contains(v)
                        && #[trigger] a[v as int].contains(w) implies visited@[w as int] by {
                    if old_stack.contains(v) {
                        let k = choose|k: int| 0 <= k < old_stack.len() && old_stack[k] == v;
                        if k < s0.len() {
                            assert(s0[k] == v);
                        }
                    }
                }
            }
            let nbrs = graph.neighbors(u);
            let mut j: usize = 0;
            while j < nbrs.len()
                invariant
                    graph.wf(),
                    a == graph@,
                    n == a.len(),
                    all == any_vertex(),
                    start < n,
                    u < n,
                    nbrs@ == a[u as int],
                    j <= nbrs@.len(),
                    visited@.len() == n,
                    visited@[start as int],
                    visited@[u as int],
                    stack@.len() >= s0.len(),
                    stack@.subrange(0, s0.len() as int) == s0,
                    count_true(visited@) == c0 + (stack@.len() - s0.len()),
                    forall|i: int| 0 <= i < stack@.len() ==> stack@[i] < n && visited@[stack@[i] as int],
                    forall|w: usize| w < n && reached_before(a, start as int, w) ==> visited@[w as int],
                    forall|w: usize|
                        w < n && visited@[w as int] ==> reached_before(a, start as int, w) || reachable(
                            a,
                            start,
                            w,
                        ),
                    forall|i: int| 0 <= i < j ==> visited@[nbrs@[i] as int],
                    forall|v: usize, w: usize|
                        v < n && v != u && visited@[v as int] && !stack@.contains(v) && #[trigger] a[v as int].contains(
                            w,
                        ) ==> visited@[w as int],
                decreases nbrs@.len() - j,
            {
                let v = nbrs[j];
                assert(a[u as int][j as int] == v);
                if !visited[v] {
                    proof {
                        lemma_count_true_set(visited@, v as int);
                        assert(a[u as int].contains(v));
                        if reached_before(a, start as int, u) {
                            let x = choose|x: usize| x < start && #[trigger] reachable(a, x, u);
                            lemma_reach_step(a, all, x, u, v);
                            assert(reachable(a, x, v));
                            assert(reached_before(a, start as int, v));
                        } else {
                            lemma_reach_step(a, all, start, u, v);
                        }
                    }
                    let ghost st = stack@;
                    let ghost vis0 = visited@;
                    visited.set(v, true);
                    stack.push(v);
                    assert(stack@[stack@.len() - 1] == v);
                    assert(stack@.subrange(0, s0.len() as int) =~= st.subrange(0, s0.len() as int));
                    assert forall|x: usize, w: usize|
                        x < n && x != u && visited@[x as int] && !stack@.contains(x)
                            && #[trigger] a[x as int].contains(w) implies visited@[w as int] by {
                        assert(x != v);
                        assert(vis0[x as int]);
                        assert(!st.contains(x)) by {
                            if st.contains(x) {
                                let k = choose|k: int| 0 <= k < st.len() && st[k] == x;
                                assert(stack@[k] == x);
                            }
                        }
                    }
                }
                j = j + 1;
            }
            proof {
                assert forall|v: usize, w: usize|
                    v < n && visited@[v as int] && !stack@.contains(v) && #[trigger] a[v as int].contains(
                        w,
                    ) implies visited@[w as int] by {
                    if v == u {
                        let i = choose|i: int| 0 <= i < nbrs@.len() && nbrs@[i] == w;
                    }
                }
                lemma_count_true_bound(visited@);
            }
        }
        proof {
            let s = |x: usize| x < n && visited@[x as int];
            assert forall|w: usize| w < n implies (visited@[w as int] <==> reached_before(
                a,
                start + 1,
                w,
            )) by {
                if visited@[w as int] {
                    if !reached_before(a, start as int, w) {
                        assert(reachable(a, start, w));
                    }
                } else {
                    if reached_before(a, start + 1, w) {
                        let u = choose|u: usize| u < start + 1 && #[trigger] reachable(a, u, w);
                        if u == start {
                            lemma_reach_closed(a, all, s, start, w);
                        }
                    }
                }
            }
        }
        start = start + 1;
    }
    assert forall|w: usize| w < n implies (visited@[w as int] <==> reached_before(a, n as int, w))
        by {}
    components
}

fn is_bipartite(graph: &Graph) -> (r: bool)
    requires
        graph.wf(),
    ensures
        r == bipartite(graph@),
{
    let ghost a = graph@;
    let n = graph.vertex_count();
    let mut color: Vec<Option<bool>> = vec![None; n];
    let mut start: usize = 0;
    while start < n
        invariant
            graph.wf(),
            a == graph@,
            n == a.len(),
            start <= n,
            color@.len() == n,
            forall|v: int| 0 <= v < start ==> color@[v] is Some,
            forall|v: usize, w: usize|
                v < n && color@[v as int] is Some && #[trigger] a[v as int].contains(w) ==> color@[w as int] is Some
                    && color@[w as int] != color@[v as int],
        decreases n - start,
    {
        if color[start].is_some() {
            start = start + 1;
            continue;
        }
        let ghost old = color@;
        color.set(start, Some(true));
        let mut stack: Vec<usize> = vec![start];
        proof {
            assert(stack@[0] == start);
        }
        while stack.len() > 0
            invariant
                graph.wf(),
                a == graph@,
                n == a.len(),
                start < n,
                color@.len() == n,
                old.len() == n,
                old[start as int] is None,
                color@[start as int] == Some(true),
                forall|v: int| 0 <= v < n && old[v] is Some ==> color@[v] == old[v],
                forall|v: int| 0 <= v < start ==> color@[v] is Some,
                forall|v: usize, w: usize|
                    v < n && old[v as int] is Some && #[trigger] a[v as int].contains(w) ==> old[w as int] is Some
                        && old[w as int] != old[v as int],
                forall|i: int|
                    0 <= i < stack@.len() ==> stack@[i] < n && color@[stack@[i] as int] is Some && old[stack@[i] as int] is None,
                forall|c: spec_fn(usize) -> bool, w: usize|
                    #![trigger proper_two_coloring(a, c), color@[w as int]]
                    proper_two_coloring(a, c) && w < n && color@[w as int] is Some && old[w as int] is None
                        ==> (c(w) == c(start) <==> color@[w as int] == Some(true)),
                forall|v: usize, w: usize|
                    v < n && color@[v as int] is Some && old[v as int] is None && !stack@.contains(v)
                        && #[trigger] a[v as int].contains(w) ==> color@[w as int] is Some && color@[w as int]
                        != color@[v as int],
            decreases n - count_true(color@.map_values(|o: Option<bool>| o is Some)), stack@.len(),
        {
            let ghost old_stack = stack@;
            let u = stack.pop().unwrap();
            let ghost s0 = stack@;
            let ghost c0 = count_true(color@.map_values(|o: Option<bool>| o is Some));
            proof {
                assert(old_stack =~= s0.push(u));
                assert(old_stack[old_stack.len() - 1] == u);
            }
            let cu = color[u].unwrap();
            let nbrs = graph.neighbors(u);
            let mut j: usize = 0;
            while j < nbrs.len()
                invariant
                    graph.wf(),
                    a == graph@,
                    n == a.len(),
                    start < n,
                    u < n,
                    nbrs@ == a[u as int],
                    j <= nbrs@.len(),
                    color@.len() == n,
                    old.len() == n,
                    old[start as int] is None,
                    old[u as int] is None,
                    color@[u as int] == Some(cu),
                    color@[start as int] == Some(true),
                    forall|v: int| 0 <= v < n && old[v] is Some ==> color@[v] == old[v],
                    forall|v: int| 0 <= v < start ==> color@[v] is Some,
                    forall|v: usize, w: usize|
                        v < n && old[v as int] is Some && #[trigger] a[v as int].contains(w) ==> old[w as int] is Some
                            && old[w as int] != old[v as int],
                    stack@.len() >= s0.len(),
                    stack@.subrange(0, s0.len() as int) == s0,
                    count_true(color@.map_values(|o: Option<bool>| o is Some)) == c0 + (stack@.len() - s0.len()),
                    forall|i: int|
                        0 <= i < stack@.len() ==> stack@[i] < n && color@[stack@[i] as int] is Some && old[stack@[i] as int] is None,
                    forall|c: spec_fn(usize) -> bool, w: usize|
                        #![trigger proper_two_coloring(a, c), color@[w as int]]
                        proper_two_coloring(a, c) && w < n && color@[w as int] is Some && old[w as int] is None
                            ==> (c(w) == c(start) <==> color@[w as int] == Some(true)),
                    forall|v: usize, w: usize|
                        v < n && v != u && color@[v as int] is Some && old[v as int] is None && !stack@.contains(v)
                            && #[trigger] a[v as int].contains(w) ==> color@[w as int] is Some && color@[w as int]
                            != color@[v as int],
                    forall|k: int|
                        0 <= k < j ==> color@[nbrs@[k] as int] is Some && color@[nbrs@[k] as int] != Some(cu),
                decreases nbrs@.len() - j,
            {
                let v = nbrs[j];
                assert(a[u as int][j as int] == v);
                assert(a[u as int].contains(v));
                match color[v] {
                    Some(cv) => {
                        if cv == cu {
                            proof {
                                assert(old[v as int] is None) by {
                                    if old[v as int] is Some {
                                        assert(a[v as int].contains(u));
                                    }
                                }
                                assert forall|c: spec_fn(usize) -> bool| !#[trigger] proper_two_coloring(a, c) by {
                                    if proper_two_coloring(a, c) {
                                        assert(c(u) == c(start) <==> color@[u as int] == Some(true));
                                        assert(c(v) == c(start) <==> color@[v as int] == Some(true));
                                        assert(c(u) != c(v));
                                    }
                                }
                            }
                            return false;
                        }
                    },
                    None => {
                        proof {
                            let m = color@.map_values(|o: Option<bool>| o is Some);
                            crate::paths::lemma_count_true_set(m, v as int);
                            assert(color@.update(v as int, Some(!cu)).map_values(|o: Option<bool>| o is Some)
                                =~= m.update(v as int, true));
                        }
                        let ghost st = stack@;
                        let ghost col0 = color@;
                        color.set(v, Some(!cu));
                        stack.push(v);
                        proof {
                            assert(stack@ == st.push(v));
                            assert(stack@[stack@.len() - 1] == v);
                            assert(stack@.subrange(0, s0.len() as int) =~= st.subrange(0, s0.len() as int));
                            assert forall|c: spec_fn(usize) -> bool, w: usize|
                                #![trigger proper_two_coloring(a, c), color@[w as int]]
                                proper_two_coloring(a, c) && w < n && color@[w as int] is Some && old[w as int] is None
                                    implies (c(w) == c(start) <==> color@[w as int] == Some(true)) by {
                                if w == v {
                                    assert(col0[u as int] == Some(cu));
                                    assert(c(u) == c(start) <==> col0[u as int] == Some(true));
                                    assert(c(u) != c(v));
                                } else {
                                    assert(col0[w as int] == color@[w as int]);
                                }
                            }
                            assert forall|x: usize, w: usize|
                                x < n && x != u && color@[x as int] is Some && old[x as int] is None && !stack@.contains(x)
                                    && #[trigger] a[x as int].contains(w) implies color@[w as int] is Some
                                    && color@[w as int] != color@[x as int] by {
                                assert(x != v);
                                assert(!st.contains(x)) by {
                                    if st.contains(x) {
                                        let k = choose|k: int| 0 <= k < st.len() && st[k] == x;
                                        assert(stack@[k] == x);
                                    }
                                }
                                assert(col0[x as int] is Some);
                                if w == v {
                                    assert(col0[w as int] is Some);
                                }
                            }
                        }
                    },
                }
                j = j + 1;
            }
            proof {
                assert forall|v: usize, w: usize|
                    v < n && color@[v as int] is Some && old[v as int] is None && !stack@.contains(v)
                        && #[trigger] a[v as int].contains(w) implies color@[w as int] is Some && color@[w as int]
                        != color@[v as int] by {
                    if v == u {
                        let k = choose|k: int| 0 <= k < nbrs@.len() && nbrs@[k] == w;
                    }
                }
                crate::paths::lemma_count_true_bound(color@.map_values(|o: Option<bool>| o is Some));
            }
        }
        proof {
            assert forall|v: usize, w: usize|
                v < n && color@[v as int] is Some && #[trigger] a[v as int].contains(w) implies color@[w as int] is Some
                    && color@[w as int] != color@[v as int] by {
                if old[v as int] is Some {
                    assert(old[w as int] is Some);
                }
            }
        }
        start = start + 1;
    }
    proof {
        let col = color@;
        assert forall|u: usize, v: usize| (u as int) < a.len() && #[trigger] a[u as int].contains(v) implies (col[u as int]
            == Some(true)) != (col[v as int] == Some(true)) by {
            assert(col[u as int] is Some);
            assert(col[v as int] is Some);
            assert(col[v as int] != col[u as int]);
            let bu = col[u as int]->0;
            let bv = col[v as int]->0;
            assert(col[u as int] == Some(bu));
            assert(col[v as int] == Some(bv));
            assert(bu != bv);
        }
        let c = |x: usize| col[x as int] == Some(true);
        assert forall|u: usize, v: usize| (u as int) < a.len() && #[trigger] a[u as int].contains(v) implies c(u)
            != c(v) by {
            assert((col[u as int] == Some(true)) != (col[v as int] == Some(true)));
        }
        assert(proper_two_coloring(a, c));
    }
    true
}

} // verus!
