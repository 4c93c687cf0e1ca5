//! Euler's bound for planar graphs: a connected planar graph on at least
//! three vertices has at most `3n - 6` edges, because each of its faces is
//! bounded by at least three darts.

use vstd::prelude::*;
use crate::{adj_wf, num_edges};
use crate::counting::lemma_edge_count_bound;
use crate::euler::{bipartite, euler_planarity_bound, planar_edge_limit, proper_two_coloring, triangle_free_edge_limit};
use crate::planarity::{euler_necessary, has_triangle_spec, is_triangle};
use crate::counting::{
    darts_below, degree_sum, lemma_darts_below, lemma_handshake, lemma_least_reacher, least_reacher, least_reacher_is,
    loops_below,
};
use crate::embedding::{faces_of, next_dart};
use crate::euler::{count_roots, is_component_root, num_components};
use crate::face_walks::{
    all_face_darts, is_dart, lemma_faces_are_closed_walks, lemma_faces_complete, lemma_faces_cover_darts, rotation_wf,
};
use crate::paths::{any_vertex, lemma_reach_closed, lemma_reach_symm, lemma_reach_trans, reachable};
use crate::rotation::{
    cyclic_order, is_neighbour, is_rotation, isolated_count, isolated_upto, no_neighbour, lemma_rotation_valid, planar, planar_face_count,
    planar_rotation,
};

verus! {

/// The total length of the face walks.
pub open spec fn total_len(fs: Seq<Seq<usize>>) -> int
    decreases fs.len(),
{
    if fs.len() == 0 {
        0
    } else {
        total_len(fs.drop_last()) + fs.last().len()
    }
}

pub(crate) proof fn lemma_total_len(fs: Seq<Seq<usize>>, m: int)
    requires
        m >= 0,
    ensures
        all_face_darts(fs).len() == total_len(fs),
        (forall|x: int| 0 <= x < fs.len() ==> (#[trigger] fs[x]).len() >= m) ==> total_len(fs) >= m * fs.len(),
    decreases fs.len(),
{
    if fs.len() > 0 {
        let p = fs.drop_last();
        lemma_total_len(p, m);
        assert forall|x: int| 0 <= x < p.len() implies p[x] == fs[x] by {}
        if forall|x: int| 0 <= x < fs.len() ==> (#[trigger] fs[x]).len() >= m {
            assert forall|x: int| 0 <= x < p.len() implies (#[trigger] p[x]).len() >= m by {
                assert(p[x] == fs[x]);
            }
            assert(fs[fs.len() - 1].len() >= m);
            assert(m * p.len() + m == m * fs.len()) by (nonlinear_arith)
                requires
                    p.len() + 1 == fs.len(),
            ;
        }
    }
}

/// Two different component roots make at least two components.
proof fn lemma_two_roots(a: Seq<Seq<usize>>, k: int, r1: usize, r2: usize)
    requires
        r1 < r2,
        (r2 as int) < k,
        is_component_root(a, r1),
        is_component_root(a, r2),
    ensures
        count_roots(a, k) >= 2,
    decreases k,
{
    if k - 1 == r2 as int {
        lemma_one_root(a, k - 1, r1);
    } else {
        lemma_two_roots(a, k - 1, r1, r2);
    }
}

proof fn lemma_one_root(a: Seq<Seq<usize>>, k: int, r1: usize)
    requires
        (r1 as int) < k,
        is_component_root(a, r1),
    ensures
        count_roots(a, k) >= 1,
    decreases k,
{
    if k - 1 != r1 as int {
        lemma_one_root(a, k - 1, r1);
    }
}

/// In a connected graph every vertex reaches every other.
proof fn lemma_connected_reach(a: Seq<Seq<usize>>, u: usize, x: usize)
    requires
        adj_wf(a),
        a.len() <= usize::MAX,
        num_components(a) == 1,
        (u as int) < a.len(),
        (x as int) < a.len(),
    ensures
        reachable(a, u, x),
{
    lemma_least_reacher(a, u);
    lemma_least_reacher(a, x);
    let ru = least_reacher(a, u);
    let rx = least_reacher(a, x);
    assert(is_component_root(a, ru)) by {
        assert(least_reacher_is(a, u, ru));
        assert forall|w: usize| w < ru implies !#[trigger] reachable(a, w, ru) by {
            if reachable(a, w, ru) {
                lemma_reach_trans(a, any_vertex(), w, ru, u);
                assert(reachable(a, w, u));
            }
        }
    }
    assert(is_component_root(a, rx)) by {
        assert(least_reacher_is(a, x, rx));
        assert forall|w: usize| w < rx implies !#[trigger] reachable(a, w, rx) by {
            if reachable(a, w, rx) {
                lemma_reach_trans(a, any_vertex(), w, rx, x);
                assert(reachable(a, w, x));
            }
        }
    }
    if ru < rx {
        lemma_two_roots(a, a.len() as int, ru, rx);
    } else if rx < ru {
        lemma_two_roots(a, a.len() as int, rx, ru);
    }
    lemma_reach_symm(a, any_vertex(), ru, u);
    lemma_reach_trans(a, any_vertex(), u, ru, x);
}

/// A cyclic list in which the entry after `u` is `u` itself has length one.
proof fn lemma_self_successor(l: Seq<usize>, u: usize)
    requires
        l.no_duplicates(),
        l.contains(u),
        l[(crate::embedding::first_index(l, u) + 1) % (l.len() as int)] == u,
    ensures
        l.len() == 1,
        l[0] == u,
{
    let j = choose|j: int| 0 <= j < l.len() && l[j] == u;
    assert forall|k: int| 0 <= k < j implies l[k] != u by {}
    crate::embedding::lemma_first_index(l, u, j);
    let m = l.len() as int;
    let t = (j + 1) % m;
    assert(0 <= t < m);
    assert(l[t] == l[j]);
    assert(t == j);
    if j + 1 < m {
        vstd::arithmetic::div_mod::lemma_small_mod((j + 1) as nat, m as nat);
    } else {
        vstd::arithmetic::div_mod::lemma_mod_self_0(m);
        assert(j == 0);
    }
}

/// A face walk of two darts `(u, w)`, `(w, u)`: each of `u` and `w` has the
/// other as its only neighbour.
#[verifier::rlimit(40)]
proof fn lemma_two_dart_face(r: Seq<Seq<usize>>, fs: Seq<Seq<usize>>, x: int)
    requires
        rotation_wf(r),
        r.len() <= usize::MAX,
        faces_of(r) == Some(fs),
        0 <= x < fs.len(),
        fs[x].len() == 2,
    ensures
        fs[x][0] < r.len(),
        fs[x][1] < r.len(),
        r[fs[x][0] as int] == seq![fs[x][1]],
        r[fs[x][1] as int] == seq![fs[x][0]],
{
    lemma_faces_are_closed_walks(r, fs, x, 0);
    lemma_faces_are_closed_walks(r, fs, x, 1);
    let f = fs[x];
    let u = f[0];
    let w = f[1];
    assert((0int + 1) % 2int == 1 && (0int + 2) % 2int == 0 && (1int + 1) % 2int == 0 && (1int + 2) % 2int == 1);
    assert(next_dart(r, u, w) == (w, u));
    assert(next_dart(r, w, u) == (u, w));
    assert(r[w as int].no_duplicates() && r[u as int].no_duplicates());
    lemma_self_successor(r[w as int], u);
    lemma_self_successor(r[u as int], w);
    assert(r[u as int] =~= seq![w]);
    assert(r[w as int] =~= seq![u]);
}

/// In a connected graph on at least three vertices, no face walk of a
/// rotation system has only two darts.
proof fn lemma_no_short_face(a: Seq<Seq<usize>>, r: Seq<Seq<usize>>, fs: Seq<Seq<usize>>, x: int)
    requires
        adj_wf(a),
        3 <= a.len() <= usize::MAX,
        num_components(a) == 1,
        is_rotation(a, r),
        rotation_wf(r),
        faces_of(r) == Some(fs),
        0 <= x < fs.len(),
    ensures
        fs[x].len() >= 3,
{
    crate::face_walks::lemma_faces_long(r, 0, Set::empty(), Seq::empty());
    assert(crate::embedding::collect_faces(r, 0, Set::empty(), Seq::empty()) == Some(fs));
    assert(crate::embedding::collect_faces(r, 0, Set::empty(), Seq::empty())->0 == fs);
    assert(crate::embedding::collect_faces(r, 0, Set::empty(), Seq::empty())->0[x].len() >= 2);
    if fs[x].len() == 2 {
        lemma_two_dart_face(r, fs, x);
        let u = fs[x][0];
        let w = fs[x][1];
        closed_pair(a, r, u, w);
        assert(r[u as int] == seq![w] && r[w as int] == seq![u]);
    }
}

/// Two vertices that are each other's only neighbour reach nothing else,
/// which a connected graph on three vertices or more forbids.
proof fn closed_pair(a: Seq<Seq<usize>>, r: Seq<Seq<usize>>, u: usize, w: usize)
    requires
        adj_wf(a),
        3 <= a.len() <= usize::MAX,
        num_components(a) == 1,
        is_rotation(a, r),
        (u as int) < a.len(),
        (w as int) < a.len(),
    ensures
        !(r[u as int] == seq![w] && r[w as int] == seq![u]),
{
    if r[u as int] == seq![w] && r[w as int] == seq![u] {
        assert(cyclic_order(a, u as int, r[u as int]));
        assert(cyclic_order(a, w as int, r[w as int]));
        let s = |y: usize| y == u || y == w;
        assert forall|y: usize, z: usize|
            #![trigger s(y), a[y as int].contains(z)]
            s(y) && y < a.len() && a[y as int].contains(z) && z < a.len() && any_vertex()(z) implies s(z) by {
            if z != y {
                assert(is_neighbour(a, y as int, z));
                assert(r[y as int].contains(z));
                if y == u {
                    assert(r[u as int][0] == w);
                } else {
                    assert(r[w as int][0] == u);
                }
            }
        }
        let t: usize = if u != 0 && w != 0 {
            0
        } else if u != 1 && w != 1 {
            1
        } else {
            2
        };
        lemma_connected_reach(a, u, t);
        lemma_reach_closed(a, any_vertex(), s, u, t);
    }
}

/// The face walks of a rotation system of a graph run along `2E` darts.
pub(crate) proof fn lemma_faces_darts_count(a: Seq<Seq<usize>>, r: Seq<Seq<usize>>, fs: Seq<Seq<usize>>)
    requires
        adj_wf(a),
        a.len() <= usize::MAX,
        is_rotation(a, r),
        rotation_wf(r),
        faces_of(r) == Some(fs),
    ensures
        all_face_darts(fs).len() == 2 * num_edges(a),
{
    let n = a.len() as int;
    let fd = all_face_darts(fs);
    let dr = Set::new(|d: (usize, usize)| is_dart(r, d));
    lemma_faces_cover_darts(r, fs, (0, 0));
    assert forall|d: (usize, usize)| fd.to_set().contains(d) <==> dr.contains(d) by {
        lemma_faces_cover_darts(r, fs, d);
        if is_dart(r, d) {
            assert(cyclic_order(a, d.0 as int, r[d.0 as int]));
            assert(is_neighbour(a, d.0 as int, d.1));
        }
    }
    assert(fd.to_set() =~= dr);
    fd.unique_seq_to_set();
    lemma_darts_below(a, n);
    lemma_handshake(a);
    let da = darts_below(a, n);
    let lp = loops_below(a, n);
    assert forall|d: (usize, usize)| da.contains(d) <==> (dr.contains(d) || lp.contains(d)) by {
        if (d.0 as int) < n {
            assert(cyclic_order(a, d.0 as int, r[d.0 as int]));
        }
    }
    assert(da =~= dr + lp);
    assert(dr.subset_of(da));
    vstd::set_lib::lemma_len_subset(dr, da);
    assert(dr.disjoint(lp)) by {
        assert forall|d: (usize, usize)| !(dr.contains(d) && lp.contains(d)) by {
            if dr.contains(d) && lp.contains(d) {
                assert(cyclic_order(a, d.0 as int, r[d.0 as int]));
                assert(r[d.0 as int].contains(d.1));
            }
        }
    }
    vstd::set_lib::lemma_set_disjoint_lens(dr, lp);
}

/// Euler's bound: a connected planar graph on at least three vertices has
/// at most `3n - 6` edges.
pub proof fn lemma_planar_edge_bound(a: Seq<Seq<usize>>)
    requires
        adj_wf(a),
        3 <= a.len() <= usize::MAX,
        num_components(a) == 1,
        isolated_count(a) == 0,
        planar(a),
    ensures
        num_edges(a) <= 3 * a.len() - 6,
{
    let r = choose|r: Seq<Seq<usize>>| #[trigger] planar_rotation(a, r);
    let fs = faces_of(r)->0;
    lemma_rotation_valid(a, r);
    assert(rotation_wf(r)) by {
        assert forall|u: int| 0 <= u < r.len() implies (#[trigger] r[u]).no_duplicates() by {
            assert(cyclic_order(a, u, r[u]));
        }
    }
    assert forall|x: int| 0 <= x < fs.len() implies (#[trigger] fs[x]).len() >= 3 by {
        lemma_no_short_face(a, r, fs, x);
    }
    lemma_total_len(fs, 3);
    lemma_faces_darts_count(a, r, fs);
    assert(fs.len() == planar_face_count(a));
}

/// A rotation system lists `2E` darts in all.
proof fn lemma_rotation_dart_total(a: Seq<Seq<usize>>, r: Seq<Seq<usize>>)
    requires
        adj_wf(a),
        a.len() <= usize::MAX,
        is_rotation(a, r),
    ensures
        degree_sum(r, r.len() as int) == 2 * num_edges(a),
{
    let n = a.len() as int;
    lemma_rotation_valid(a, r);
    assert(adj_wf(r)) by {
        assert forall|u: int| 0 <= u < r.len() implies (#[trigger] r[u]).no_duplicates() by {
            assert(cyclic_order(a, u, r[u]));
        }
        assert forall|u: int, v: usize| 0 <= u < r.len() && #[trigger] r[u].contains(v) implies r[v as int].contains(
            u as usize,
        ) by {
            let i = choose|i: int| 0 <= i < r[u].len() && r[u][i] == v;
        }
    }
    lemma_darts_below(r, n);
    let dr = Set::new(|d: (usize, usize)| is_dart(r, d));
    assert(darts_below(r, n) =~= dr);
    lemma_darts_below(a, n);
    lemma_handshake(a);
    let da = darts_below(a, n);
    let lp = loops_below(a, n);
    assert forall|d: (usize, usize)| da.contains(d) <==> (dr.contains(d) || lp.contains(d)) by {
        if (d.0 as int) < n {
            assert(cyclic_order(a, d.0 as int, r[d.0 as int]));
        }
    }
    assert(da =~= dr + lp);
    assert(dr.disjoint(lp)) by {
        assert forall|d: (usize, usize)| !(dr.contains(d) && lp.contains(d)) by {
            if dr.contains(d) && lp.contains(d) {
                assert(cyclic_order(a, d.0 as int, r[d.0 as int]));
                assert(r[d.0 as int].contains(d.1));
            }
        }
    }
    vstd::set_lib::lemma_set_disjoint_lens(dr, lp);
}

/// Every rotation system of a graph with at most `2n + 2` edges (every
/// forest among them) has its face walks traced in full.
pub proof fn lemma_sparse_faces_complete(a: Seq<Seq<usize>>, r: Seq<Seq<usize>>)
    requires
        adj_wf(a),
        a.len() <= usize::MAX,
        is_rotation(a, r),
        num_edges(a) <= 2 * a.len() + 2,
    ensures
        faces_of(r) is Some,
{
    lemma_rotation_dart_total(a, r);
    lemma_rotation_valid(a, r);
    assert(rotation_wf(r)) by {
        assert forall|u: int| 0 <= u < r.len() implies (#[trigger] r[u]).no_duplicates() by {
            assert(cyclic_order(a, u, r[u]));
        }
    }
    lemma_faces_complete(r);
}

/// A connected graph on two or more vertices has no isolated vertex.
pub proof fn lemma_connected_no_isolated(a: Seq<Seq<usize>>)
    requires
        adj_wf(a),
        2 <= a.len() <= usize::MAX,
        num_components(a) == 1,
    ensures
        isolated_count(a) == 0,
{
    assert forall|v: int| 0 <= v < a.len() implies !#[trigger] no_neighbour(a, v) by {
        if no_neighbour(a, v) {
            let u: usize = if v == 0 { 1 } else { 0 };
            lemma_connected_reach(a, v as usize, u);
            let s = |y: usize| y == v as usize;
            assert forall|y: usize, z: usize|
                #![trigger s(y), a[y as int].contains(z)]
                s(y) && y < a.len() && a[y as int].contains(z) && z < a.len() && any_vertex()(z) implies s(z) by {
                assert(!is_neighbour(a, v, z));
            }
            lemma_reach_closed(a, any_vertex(), s, v as usize, u);
        }
    }
    lemma_isolated_none(a, a.len() as int);
}

proof fn lemma_isolated_none(a: Seq<Seq<usize>>, k: int)
    requires
        0 <= k <= a.len(),
        forall|v: int| 0 <= v < a.len() ==> !#[trigger] no_neighbour(a, v),
    ensures
        isolated_upto(a, k) == 0,
    decreases k,
{
    if k > 0 {
        lemma_isolated_none(a, k - 1);
        assert(!no_neighbour(a, k - 1));
    }
}

/// Three distinct, pairwise adjacent vertices make a triangle.
proof fn lemma_triangle_from(a: Seq<Seq<usize>>, x: usize, y: usize, z: usize)
    requires
        adj_wf(a),
        (x as int) < a.len(),
        (y as int) < a.len(),
        (z as int) < a.len(),
        x != y && y != z && x != z,
        a[x as int].contains(y),
        a[y as int].contains(z),
        a[z as int].contains(x),
    ensures
        has_triangle_spec(a),
{
    assert(a[y as int].contains(x));
    assert(a[z as int].contains(y));
    assert(a[x as int].contains(z));
    if x < y && y < z {
        assert(is_triangle(a, x, y, z));
    } else if x < z && z < y {
        assert(is_triangle(a, x, z, y));
    } else if y < x && x < z {
        assert(is_triangle(a, y, x, z));
    } else if y < z && z < x {
        assert(is_triangle(a, y, z, x));
    } else if z < x && x < y {
        assert(is_triangle(a, z, x, y));
    } else {
        assert(is_triangle(a, z, y, x));
    }
}

/// In a triangle-free graph no face walk of a rotation system has three darts.
proof fn lemma_no_triangle_face(a: Seq<Seq<usize>>, r: Seq<Seq<usize>>, fs: Seq<Seq<usize>>, x: int)
    requires
        adj_wf(a),
        a.len() <= usize::MAX,
        !has_triangle_spec(a),
        is_rotation(a, r),
        rotation_wf(r),
        faces_of(r) == Some(fs),
        0 <= x < fs.len(),
    ensures
        fs[x].len() != 3,
{
    if fs[x].len() == 3 {
        lemma_triangle_face(a, r, fs, x);
    }
}

proof fn lemma_triangle_face(a: Seq<Seq<usize>>, r: Seq<Seq<usize>>, fs: Seq<Seq<usize>>, x: int)
    requires
        adj_wf(a),
        a.len() <= usize::MAX,
        is_rotation(a, r),
        rotation_wf(r),
        faces_of(r) == Some(fs),
        0 <= x < fs.len(),
        fs[x].len() == 3,
    ensures
        has_triangle_spec(a),
{
    lemma_faces_are_closed_walks(r, fs, x, 0);
    lemma_faces_are_closed_walks(r, fs, x, 1);
    lemma_faces_are_closed_walks(r, fs, x, 2);
    let f = fs[x];
    assert((0int + 1) % 3int == 1 && (1int + 1) % 3int == 2 && (2int + 1) % 3int == 0);
    let (p, q, t) = (f[0], f[1], f[2]);
    assert(r[p as int].contains(q) && r[q as int].contains(t) && r[t as int].contains(p));
    assert(cyclic_order(a, p as int, r[p as int]));
    assert(cyclic_order(a, q as int, r[q as int]));
    assert(cyclic_order(a, t as int, r[t as int]));
    assert(is_neighbour(a, p as int, q) && is_neighbour(a, q as int, t) && is_neighbour(a, t as int, p));
    lemma_triangle_from(a, p, q, t);
}

/// A bipartite graph has no triangle.
pub proof fn lemma_bipartite_triangle_free(a: Seq<Seq<usize>>)
    requires
        bipartite(a),
    ensures
        !has_triangle_spec(a),
{
    let c = choose|c: spec_fn(usize) -> bool| #[trigger] proper_two_coloring(a, c);
    if has_triangle_spec(a) {
        let (u, v, w) = choose|u: usize, v: usize, w: usize| #[trigger] is_triangle(a, u, v, w);
        assert(c(u) != c(v));
        assert(c(v) != c(w));
        assert(c(u) != c(w));
    }
}

/// Euler's bound for triangle-free graphs: a connected planar graph on at
/// least three vertices without a triangle has at most `2n - 4` edges.
pub proof fn lemma_planar_triangle_free_bound(a: Seq<Seq<usize>>)
    requires
        adj_wf(a),
        3 <= a.len() <= usize::MAX,
        num_components(a) == 1,
        !has_triangle_spec(a),
        planar(a),
    ensures
        num_edges(a) <= 2 * a.len() - 4,
{
    lemma_connected_no_isolated(a);
    let r = choose|r: Seq<Seq<usize>>| #[trigger] planar_rotation(a, r);
    let fs = faces_of(r)->0;
    lemma_rotation_valid(a, r);
    assert(rotation_wf(r)) by {
        assert forall|u: int| 0 <= u < r.len() implies (#[trigger] r[u]).no_duplicates() by {
            assert(cyclic_order(a, u, r[u]));
        }
    }
    assert forall|x: int| 0 <= x < fs.len() implies (#[trigger] fs[x]).len() >= 4 by {
        lemma_no_short_face(a, r, fs, x);
        lemma_no_triangle_face(a, r, fs, x);
    }
    lemma_total_len(fs, 4);
    lemma_faces_darts_count(a, r, fs);
    assert(fs.len() == planar_face_count(a));
}

/// Every connected planar graph on `n` vertices has at most as many edges
/// as `max_edges_planar(n)` allows, and, without a triangle, at most as
/// many as `max_edges_triangle_free_planar(n)` allows.
pub proof fn lemma_planar_edge_limits(a: Seq<Seq<usize>>)
    requires
        adj_wf(a),
        a.len() <= usize::MAX,
        num_components(a) == 1,
        planar(a),
    ensures
        num_edges(a) <= planar_edge_limit(a.len() as int),
        !has_triangle_spec(a) ==> num_edges(a) <= triangle_free_edge_limit(a.len() as int),
{
    let n = a.len() as int;
    lemma_edge_count_bound(a);
    if n < 3 {
        assert(n * (n - 1) == 2 * (n * (n - 1) / 2)) by (nonlinear_arith)
            requires
                0 <= n < 3,
        ;
    } else {
        lemma_connected_no_isolated(a);
        lemma_planar_edge_bound(a);
        if !has_triangle_spec(a) {
            lemma_planar_triangle_free_bound(a);
        }
    }
}

/// Every connected planar graph passes the Euler-based test of
/// `planarity_from_euler`: `e <= 3n - 6`, and `e <= 2n - 4` when bipartite
/// (for `n >= 3`).
pub proof fn lemma_planar_passes_euler_test(a: Seq<Seq<usize>>)
    requires
        adj_wf(a),
        a.len() <= usize::MAX,
        num_components(a) == 1,
        planar(a),
    ensures
        euler_planarity_bound(a),
        euler_necessary(a),
{
    if a.len() >= 3 {
        lemma_connected_no_isolated(a);
        lemma_planar_edge_bound(a);
        if bipartite(a) {
            lemma_bipartite_triangle_free(a);
            lemma_planar_triangle_free_bound(a);
        }
    }
}

} // verus!
