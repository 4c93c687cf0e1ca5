//! Planar graphs that reach the edge limits, on every number `n >= 3` of
//! vertices. A triangulation: a path through the vertices `2..n`, with
//! vertices 0 and 1 joined to each other and to every vertex of the path;
//! it has `3n - 6` edges. And the complete bipartite graph with sides
//! `{0, 1}` and `2..n`, which has no triangle and `2n - 4` edges.

use vstd::prelude::*;
use crate::{adj_wf, num_edges};
use crate::counting::{degree_sum, lemma_handshake, loop_count};
use crate::euler::{count_roots, is_component_root, num_components, planar_edge_limit, triangle_free_edge_limit};
use crate::planarity::{has_triangle_spec, is_triangle};
use crate::euler_bound::{lemma_faces_darts_count, lemma_total_len, total_len};
use crate::paths::{any_vertex, lemma_reach_refl, lemma_reach_step, reachable};
use crate::embedding::{lemma_first_index, next_dart};
use crate::embedding::faces_of;
use crate::face_walks::{closes_at, is_dart, iter_dart, lemma_uniform_faces, rotation_wf, succ};
use crate::rotation::{
    cyclic_order, is_neighbour, is_rotation, isolated_upto, lemma_rotation_valid, no_neighbour, planar, planar_face_count,
    planar_rotation,
};

verus! {

/// The cyclic order of the neighbours of `v` in the drawing with the path
/// on a line, vertex 0 above it, vertex 1 below it, and the edge between
/// 0 and 1 around the left end of the path.
pub open spec fn tri_list(n: nat, v: int) -> Seq<usize> {
    if v == 0 {
        Seq::new((n - 1) as nat, |i: int| (i + 1) as usize)
    } else if v == 1 {
        seq![0usize] + Seq::new((n - 2) as nat, |k: int| (n - 1 - k) as usize)
    } else {
        seq![0usize] + (if v >= 3 {
            seq![(v - 1) as usize]
        } else {
            Seq::<usize>::empty()
        }) + seq![1usize] + (if v <= n - 2 {
            seq![(v + 1) as usize]
        } else {
            Seq::<usize>::empty()
        })
    }
}

/// The triangulation on `n` vertices, its lists in drawing order.
pub open spec fn tri_graph(n: nat) -> Seq<Seq<usize>> {
    Seq::new(n, |v: int| tri_list(n, v))
}

/// Which vertices of the triangulation are adjacent.
pub open spec fn tri_adjacent(n: nat, v: int, w: int) -> bool {
    &&& 0 <= v < n
    &&& 0 <= w < n
    &&& v != w
    &&& (v <= 1 || w <= 1 || v == w + 1 || w == v + 1)
}

/// The neighbour of `w` that follows `v` in the cyclic order at `w`.
pub open spec fn tri_after(n: nat, w: int, v: int) -> int {
    if w == 0 {
        if v < n - 1 {
            v + 1
        } else {
            1
        }
    } else if w == 1 {
        if v == 0 {
            n - 1
        } else if v == 2 {
            0
        } else {
            v - 1
        }
    } else if v == 0 {
        if w >= 3 {
            w - 1
        } else {
            1
        }
    } else if v == 1 {
        if w <= n - 2 {
            w + 1
        } else {
            0
        }
    } else if v == w - 1 {
        1
    } else {
        0
    }
}

/// Every face is a triangle: three steps from a dart lead back to it.
proof fn lemma_tri_triangle(n: nat, v: int, w: int)
    requires
        n >= 3,
        tri_adjacent(n, v, w),
    ensures
        tri_adjacent(n, w, tri_after(n, w, v)),
        tri_after(n, w, v) != v,
        tri_adjacent(n, tri_after(n, w, v), tri_after(n, tri_after(n, w, v), w)),
        tri_after(n, tri_after(n, w, v), w) == v,
        tri_after(n, v, tri_after(n, w, v)) == w,
{
}

/// The lists of the triangulation: in range, without repeats, and listing
/// exactly the adjacent vertices.
proof fn lemma_tri_list(n: nat, v: int, w: usize)
    requires
        n >= 3,
        n <= usize::MAX,
        0 <= v < n,
    ensures
        tri_list(n, v).no_duplicates(),
        tri_list(n, v).contains(w) <==> tri_adjacent(n, v, w as int),
        forall|i: int| 0 <= i < tri_list(n, v).len() ==> (#[trigger] tri_list(n, v)[i] as int) < n,
{
    let l = tri_list(n, v);
    if v == 0 {
        assert forall|i: int| 0 <= i < l.len() implies l[i] == (i + 1) as usize by {}
        if tri_adjacent(n, v, w as int) {
            assert(l[w as int - 1] == w);
        }
        if l.contains(w) {
            let i = choose|i: int| 0 <= i < l.len() && l[i] == w;
            assert(l[i] == (i + 1) as usize);
        }
        assert forall|i: int, j: int| 0 <= i < j < l.len() implies l[i] != l[j] by {
            assert(l[i] == (i + 1) as usize && l[j] == (j + 1) as usize);
        }
    } else if v == 1 {
        assert(l[0] == 0);
        assert forall|i: int| 1 <= i < l.len() implies l[i] == (n - i) as usize by {}
        if tri_adjacent(n, v, w as int) {
            if w == 0 {
                assert(l[0] == w);
            } else {
                assert(l[n - w as int] == w);
            }
        }
        if l.contains(w) {
            let i = choose|i: int| 0 <= i < l.len() && l[i] == w;
            if i > 0 {
                assert(l[i] == (n - i) as usize);
            }
        }
        assert forall|i: int, j: int| 0 <= i < j < l.len() implies l[i] != l[j] by {
            if i > 0 {
                assert(l[i] == (n - i) as usize);
            }
            assert(l[j] == (n - j) as usize);
        }
    } else {
        let a = v >= 3;
        let b = v <= n - 2;
        if a && b {
            assert(l =~= seq![0usize, (v - 1) as usize, 1usize, (v + 1) as usize]);
        } else if a {
            assert(l =~= seq![0usize, (v - 1) as usize, 1usize]);
        } else if b {
            assert(l =~= seq![0usize, 1usize, (v + 1) as usize]);
        } else {
            assert(l =~= seq![0usize, 1usize]);
        }
        if tri_adjacent(n, v, w as int) {
            if a && b {
                if w == 0 {
                    assert(l[0] == w);
                } else if w == 1 {
                    assert(l[2] == w);
                } else if w as int == v - 1 {
                    assert(l[1] == w);
                } else {
                    assert(l[3] == w);
                }
            } else if a {
                if w == 0 {
                    assert(l[0] == w);
                } else if w == 1 {
                    assert(l[2] == w);
                } else {
                    assert(l[1] == w);
                }
            } else if b {
                if w == 0 {
                    assert(l[0] == w);
                } else if w == 1 {
                    assert(l[1] == w);
                } else {
                    assert(l[2] == w);
                }
            } else {
                if w == 0 {
                    assert(l[0] == w);
                } else {
                    assert(l[1] == w);
                }
            }
        }
    }
}

/// The position after `j` in a cyclic list of length `m`.
proof fn lemma_next_position(j: int, m: int)
    requires
        0 <= j < m,
    ensures
        (j + 1) % m == if j + 1 == m {
            0
        } else {
            j + 1
        },
{
    if j + 1 == m {
        vstd::arithmetic::div_mod::lemma_mod_self_0(m);
    } else {
        vstd::arithmetic::div_mod::lemma_small_mod((j + 1) as nat, m as nat);
    }
}

/// The dart after `(v, w)` along its face.
proof fn lemma_tri_next(n: nat, v: int, w: int)
    requires
        n >= 3,
        n <= usize::MAX,
        tri_adjacent(n, v, w),
    ensures
        next_dart(tri_graph(n), v as usize, w as usize) == (w as usize, tri_after(n, w, v) as usize),
{
    let l = tri_list(n, w);
    assert(tri_graph(n)[w] == l);
    lemma_tri_list(n, w, v as usize);
    let m = l.len() as int;
    let i: int = if w == 0 {
        v - 1
    } else if w == 1 {
        if v == 0 {
            0
        } else {
            n - v
        }
    } else {
        let a = w >= 3;
        if v == 0 {
            0
        } else if v == 1 {
            if a {
                2
            } else {
                1
            }
        } else if v == w - 1 {
            1
        } else if a {
            3
        } else {
            2
        }
    };
    if w == 1 {
        assert forall|k: int| 1 <= k < l.len() implies l[k] == (n - k) as usize by {}
    }
    if w >= 2 {
        let a = w >= 3;
        let b = w <= n - 2;
        if a && b {
            assert(l =~= seq![0usize, (w - 1) as usize, 1usize, (w + 1) as usize]);
        } else if a {
            assert(l =~= seq![0usize, (w - 1) as usize, 1usize]);
        } else if b {
            assert(l =~= seq![0usize, 1usize, (w + 1) as usize]);
        } else {
            assert(l =~= seq![0usize, 1usize]);
        }
    }
    assert(0 <= i < m && l[i] == v as usize);
    assert forall|k: int| 0 <= k < i implies l[k] != v as usize by {
        assert(l.no_duplicates());
    }
    lemma_first_index(l, v as usize, i);
    lemma_next_position(i, m);
}

/// The triangulation's lists are well formed and are a rotation system of
/// it.
proof fn lemma_tri_wf(n: nat)
    requires
        3 <= n <= usize::MAX,
    ensures
        adj_wf(tri_graph(n)),
        is_rotation(tri_graph(n), tri_graph(n)),
        rotation_wf(tri_graph(n)),
        forall|d: (usize, usize)| #[trigger] is_dart(tri_graph(n), d) <==> tri_adjacent(n, d.0 as int, d.1 as int),
{
    let a = tri_graph(n);
    assert forall|v: int, w: usize| 0 <= v < n implies (#[trigger] a[v].contains(w) <==> tri_adjacent(n, v, w as int))
        && a[v].no_duplicates() by {
        lemma_tri_list(n, v, w);
    }
    assert forall|u: int, i: int| 0 <= u < a.len() && 0 <= i < a[u].len() implies (#[trigger] a[u][i]) < a.len() by {
        lemma_tri_list(n, u, 0);
    }
    assert forall|u: int, v: usize| 0 <= u < a.len() && #[trigger] a[u].contains(v) implies a[v as int].contains(
        u as usize,
    ) by {
        lemma_tri_list(n, u, v);
        lemma_tri_list(n, v as int, u as usize);
    }
    assert(adj_wf(a));
    assert forall|v: int| 0 <= v < a.len() implies #[trigger] cyclic_order(a, v, a[v]) by {
        lemma_tri_list(n, v, 0);
        let l = a[v];
        if v == 0 {
            assert(l[0] == 1);
            assert forall|x: usize| #[trigger] is_neighbour(a, v, x) implies l[0] <= x by {
                lemma_tri_list(n, v, x);
            }
        } else {
            assert(l[0] == 0);
        }
        assert(is_neighbour(a, v, l[0])) by {
            assert(l.contains(l[0]));
        }
        assert forall|w: usize| #[trigger] l.contains(w) <==> is_neighbour(a, v, w) by {
            lemma_tri_list(n, v, w);
        }
    }
    lemma_rotation_valid(a, a);
    assert forall|d: (usize, usize)| #[trigger] is_dart(a, d) <==> tri_adjacent(n, d.0 as int, d.1 as int) by {
        if (d.0 as int) < n {
            lemma_tri_list(n, d.0 as int, d.1);
        }
    }
}

/// Every face of the triangulation is a triangle: each dart comes back to
/// itself after exactly three steps.
proof fn lemma_tri_closes(n: nat)
    requires
        3 <= n <= usize::MAX,
    ensures
        forall|d: (usize, usize)| #[trigger] is_dart(tri_graph(n), d) ==> closes_at(tri_graph(n), d, 3),
{
    let a = tri_graph(n);
    lemma_tri_wf(n);
    assert forall|d: (usize, usize)| #[trigger] is_dart(a, d) implies closes_at(a, d, 3) by {
        let v = d.0 as int;
        let w = d.1 as int;
        lemma_tri_triangle(n, v, w);
        let x = tri_after(n, w, v);
        lemma_tri_next(n, v, w);
        lemma_tri_next(n, w, x);
        lemma_tri_next(n, x, v);
        assert(iter_dart(a, d, 1) == succ(a, iter_dart(a, d, 0)));
        assert(iter_dart(a, d, 1) == (w as usize, x as usize));
        assert(iter_dart(a, d, 2) == succ(a, iter_dart(a, d, 1)));
        assert(iter_dart(a, d, 2) == (x as usize, v as usize));
        assert(iter_dart(a, d, 3) == succ(a, iter_dart(a, d, 2)));
        assert(iter_dart(a, d, 3) == d);
        assert forall|i: nat| 1 <= i < 3 implies #[trigger] iter_dart(a, d, i) != d by {
            if i == 1 {
                assert(iter_dart(a, d, 1) == (w as usize, x as usize));
            } else {
                assert(i == 2);
                assert(iter_dart(a, d, 2) == (x as usize, v as usize));
            }
        }
    }
}

proof fn lemma_tri_degrees(n: nat, k: int)
    requires
        3 <= n <= usize::MAX,
        2 <= k <= n,
    ensures
        degree_sum(tri_graph(n), k) == 2 * (n - 1) + 4 * (k - 2) - (if k >= 3 {
            1int
        } else {
            0int
        }) - (if k == n {
            1int
        } else {
            0int
        }),
    decreases k,
{
    let a = tri_graph(n);
    if k == 2 {
        assert(degree_sum(a, 0) == 0);
        assert(a[0].len() == n - 1);
        assert(a[1].len() == n - 1);
        assert(degree_sum(a, 1) == degree_sum(a, 0) + a[0].len());
        assert(degree_sum(a, 2) == degree_sum(a, 1) + a[1].len());
    } else {
        lemma_tri_degrees(n, k - 1);
        assert(degree_sum(a, k) == degree_sum(a, k - 1) + a[k - 1].len());
        let p = k - 1;
        let l = tri_list(n, p);
        assert(a[p] == l);
        if p >= 3 && p <= n - 2 {
            assert(l =~= seq![0usize, (p - 1) as usize, 1usize, (p + 1) as usize]);
        } else if p >= 3 {
            assert(l =~= seq![0usize, (p - 1) as usize, 1usize]);
        } else if p <= n - 2 {
            assert(l =~= seq![0usize, 1usize, (p + 1) as usize]);
        } else {
            assert(l =~= seq![0usize, 1usize]);
        }
    }
}

proof fn lemma_tri_counts(n: nat, k: int)
    requires
        3 <= n <= usize::MAX,
        1 <= k <= n,
    ensures
        loop_count(tri_graph(n), k) == 0,
        count_roots(tri_graph(n), k) == 1,
        isolated_upto(tri_graph(n), k) == 0,
    decreases k,
{
    let a = tri_graph(n);
    lemma_tri_wf(n);
    if k > 1 {
        lemma_tri_counts(n, k - 1);
    }
    let v = k - 1;
    assert(a[v] == tri_list(n, v));
    lemma_tri_list(n, v, v as usize);
    assert(!a[v].contains(v as usize));
    assert(loop_count(a, k) == loop_count(a, k - 1));
    let w: usize = if v == 0 { 1 } else { 0 };
    lemma_tri_list(n, v, w);
    assert(is_neighbour(a, v, w));
    assert(!no_neighbour(a, v));
    assert(isolated_upto(a, k) == isolated_upto(a, k - 1));
    assert(count_roots(a, 0) == 0);
    assert(count_roots(a, k) == count_roots(a, k - 1) + if is_component_root(a, v as usize) {
        1nat
    } else {
        0nat
    });
    if v == 0 {
        assert(is_component_root(a, 0));
    } else {
        assert(a[0] == tri_list(n, 0));
        lemma_tri_list(n, 0, v as usize);
        assert(a[0].contains(v as usize));
        lemma_reach_refl(a, any_vertex(), 0);
        lemma_reach_step(a, any_vertex(), 0, 0, v as usize);
        assert(reachable(a, 0, v as usize));
        assert(!is_component_root(a, v as usize));
    }
}

/// The triangulation on `n >= 3` vertices: well formed, connected, planar,
/// with `3n - 6` edges.
proof fn lemma_tri_planar(n: nat)
    requires
        3 <= n <= usize::MAX,
    ensures
        adj_wf(tri_graph(n)),
        tri_graph(n).len() == n,
        num_components(tri_graph(n)) == 1,
        num_edges(tri_graph(n)) == 3 * n - 6,
        planar(tri_graph(n)),
{
    let a = tri_graph(n);
    lemma_tri_wf(n);
    lemma_tri_closes(n);
    lemma_tri_degrees(n, n as int);
    lemma_tri_counts(n, n as int);
    lemma_handshake(a);
    assert(num_edges(a) == 3 * n - 6);
    lemma_uniform_faces(a, 3);
    let fs = faces_of(a)->0;
    lemma_total_len(fs, 3);
    assert forall|x: int| 0 <= x < fs.len() implies (#[trigger] fs[x]).len() >= 3 by {}
    lemma_faces_darts_count(a, a, fs);
    assert forall|x: int| 0 <= x < fs.len() implies (#[trigger] fs[x]).len() <= 3 by {}
    lemma_total_upper(fs, 3);
    assert(fs.len() == planar_face_count(a));
    assert(planar_rotation(a, a));
}

proof fn lemma_total_upper(fs: Seq<Seq<usize>>, m: int)
    requires
        m >= 0,
        forall|x: int| 0 <= x < fs.len() ==> (#[trigger] fs[x]).len() <= m,
    ensures
        total_len(fs) <= m * fs.len(),
    decreases fs.len(),
{
    if fs.len() > 0 {
        let p = fs.drop_last();
        assert forall|x: int| 0 <= x < p.len() implies (#[trigger] p[x]).len() <= m by {
            assert(p[x] == fs[x]);
        }
        lemma_total_upper(p, m);
        assert(fs[fs.len() - 1].len() <= m);
        assert(m * p.len() + m == m * fs.len()) by (nonlinear_arith)
            requires
                p.len() + 1 == fs.len(),
        ;
    }
}

/// The edge limit of planar graphs is reached: for every `n >= 3` some
/// connected planar graph on `n` vertices has exactly as many edges as
/// `max_edges_planar(n)` allows (and, by `lemma_planar_edge_limits`, none
/// has more).
pub proof fn lemma_planar_edge_limit_reached(n: nat)
    requires
        3 <= n <= usize::MAX,
    ensures
        exists|a: Seq<Seq<usize>>|
            adj_wf(a) && a.len() == n && num_components(a) == 1 && #[trigger] planar(a) && num_edges(a)
                == planar_edge_limit(n as int),
{
    lemma_tri_planar(n);
    let a = tri_graph(n);
    assert(adj_wf(a) && a.len() == n && num_components(a) == 1 && planar(a) && num_edges(a) == planar_edge_limit(
        n as int,
    ));
}

/// The cyclic order of the neighbours of `v` in the complete bipartite
/// graph with sides `{0, 1}` and `2..n`.
pub open spec fn bip_list(n: nat, v: int) -> Seq<usize> {
    if v == 0 {
        Seq::new((n - 2) as nat, |i: int| (i + 2) as usize)
    } else if v == 1 {
        seq![2usize] + Seq::new((n - 3) as nat, |k: int| (n - 1 - k) as usize)
    } else {
        seq![0usize, 1usize]
    }
}

/// The complete bipartite graph with sides `{0, 1}` and `2..n`.
pub open spec fn bip_graph(n: nat) -> Seq<Seq<usize>> {
    Seq::new(n, |v: int| bip_list(n, v))
}

/// Which vertices of that graph are adjacent: one of them is 0 or 1, the
/// other is not.
pub open spec fn bip_adjacent(n: nat, v: int, w: int) -> bool {
    0 <= v < n && 0 <= w < n && ((v <= 1) != (w <= 1))
}

/// The neighbour of `w` that follows `v` in the cyclic order at `w`.
pub open spec fn bip_after(n: nat, w: int, v: int) -> int {
    if w == 0 {
        if v < n - 1 {
            v + 1
        } else {
            2
        }
    } else if w == 1 {
        if v == 2 {
            n - 1
        } else {
            v - 1
        }
    } else if v == 0 {
        1
    } else {
        0
    }
}

/// Every face is a quadrilateral: four steps from a dart lead back to it.
proof fn lemma_bip_square(n: nat, v: int, w: int)
    requires
        n >= 3,
        bip_adjacent(n, v, w),
    ensures
        ({
            let x = bip_after(n, w, v);
            let y = bip_after(n, x, w);
            let z = bip_after(n, y, x);
            &&& bip_adjacent(n, w, x)
            &&& bip_adjacent(n, x, y)
            &&& bip_adjacent(n, y, z)
            &&& z == v
            &&& bip_after(n, z, y) == w
            &&& (x, y) != (v, w)
        }),
{
}

proof fn lemma_bip_list(n: nat, v: int, w: usize)
    requires
        n >= 3,
        n <= usize::MAX,
        0 <= v < n,
    ensures
        bip_list(n, v).no_duplicates(),
        bip_list(n, v).contains(w) <==> bip_adjacent(n, v, w as int),
        forall|i: int| 0 <= i < bip_list(n, v).len() ==> (#[trigger] bip_list(n, v)[i] as int) < n,
{
    let l = bip_list(n, v);
    if v == 0 {
        assert forall|i: int| 0 <= i < l.len() implies l[i] == (i + 2) as usize by {}
        if bip_adjacent(n, v, w as int) {
            assert(l[w as int - 2] == w);
        }
        if l.contains(w) {
            let i = choose|i: int| 0 <= i < l.len() && l[i] == w;
            assert(l[i] == (i + 2) as usize);
        }
        assert forall|i: int, j: int| 0 <= i < j < l.len() implies l[i] != l[j] by {
            assert(l[i] == (i + 2) as usize && l[j] == (j + 2) as usize);
        }
    } else if v == 1 {
        assert(l[0] == 2);
        assert forall|i: int| 1 <= i < l.len() implies l[i] == (n - i) as usize by {}
        if bip_adjacent(n, v, w as int) {
            if w == 2 {
                assert(l[0] == w);
            } else {
                assert(l[n - w as int] == w);
            }
        }
        if l.contains(w) {
            let i = choose|i: int| 0 <= i < l.len() && l[i] == w;
            if i > 0 {
                assert(l[i] == (n - i) as usize);
            }
        }
        assert forall|i: int, j: int| 0 <= i < j < l.len() implies l[i] != l[j] by {
            if i > 0 {
                assert(l[i] == (n - i) as usize);
            }
            assert(l[j] == (n - j) as usize);
        }
    } else {
        if bip_adjacent(n, v, w as int) {
            if w == 0 {
                assert(l[0] == w);
            } else {
                assert(l[1] == w);
            }
        }
    }
}

proof fn lemma_bip_next(n: nat, v: int, w: int)
    requires
        n >= 3,
        n <= usize::MAX,
        bip_adjacent(n, v, w),
    ensures
        next_dart(bip_graph(n), v as usize, w as usize) == (w as usize, bip_after(n, w, v) as usize),
{
    let l = bip_list(n, w);
    assert(bip_graph(n)[w] == l);
    lemma_bip_list(n, w, v as usize);
    let m = l.len() as int;
    let i: int = if w == 0 {
        v - 2
    } else if w == 1 {
        if v == 2 {
            0
        } else {
            n - v
        }
    } else if v == 0 {
        0
    } else {
        1
    };
    if w == 1 {
        assert forall|k: int| 1 <= k < l.len() implies l[k] == (n - k) as usize by {}
    }
    assert(0 <= i < m && l[i] == v as usize);
    assert forall|k: int| 0 <= k < i implies l[k] != v as usize by {
        assert(l.no_duplicates());
    }
    lemma_first_index(l, v as usize, i);
    lemma_next_position(i, m);
}

proof fn lemma_bip_wf(n: nat)
    requires
        3 <= n <= usize::MAX,
    ensures
        adj_wf(bip_graph(n)),
        is_rotation(bip_graph(n), bip_graph(n)),
        rotation_wf(bip_graph(n)),
        forall|d: (usize, usize)| #[trigger] is_dart(bip_graph(n), d) <==> bip_adjacent(n, d.0 as int, d.1 as int),
{
    let a = bip_graph(n);
    assert forall|v: int, w: usize| 0 <= v < n implies (#[trigger] a[v].contains(w) <==> bip_adjacent(n, v, w as int))
        && a[v].no_duplicates() by {
        lemma_bip_list(n, v, w);
    }
    assert forall|u: int, i: int| 0 <= u < a.len() && 0 <= i < a[u].len() implies (#[trigger] a[u][i]) < a.len() by {
        lemma_bip_list(n, u, 0);
    }
    assert forall|u: int, v: usize| 0 <= u < a.len() && #[trigger] a[u].contains(v) implies a[v as int].contains(
        u as usize,
    ) by {
        lemma_bip_list(n, u, v);
        lemma_bip_list(n, v as int, u as usize);
    }
    assert(adj_wf(a));
    assert forall|v: int| 0 <= v < a.len() implies #[trigger] cyclic_order(a, v, a[v]) by {
        lemma_bip_list(n, v, 0);
        let l = a[v];
        if v <= 1 {
            assert(l[0] == 2);
            assert forall|x: usize| #[trigger] is_neighbour(a, v, x) implies l[0] <= x by {
                lemma_bip_list(n, v, x);
            }
        } else {
            assert(l[0] == 0);
        }
        assert(is_neighbour(a, v, l[0])) by {
            assert(l.contains(l[0]));
        }
        assert forall|w: usize| #[trigger] l.contains(w) <==> is_neighbour(a, v, w) by {
            lemma_bip_list(n, v, w);
        }
    }
    lemma_rotation_valid(a, a);
    assert forall|d: (usize, usize)| #[trigger] is_dart(a, d) <==> bip_adjacent(n, d.0 as int, d.1 as int) by {
        if (d.0 as int) < n {
            lemma_bip_list(n, d.0 as int, d.1);
        }
    }
}

proof fn lemma_bip_closes(n: nat)
    requires
        3 <= n <= usize::MAX,
    ensures
        forall|d: (usize, usize)| #[trigger] is_dart(bip_graph(n), d) ==> closes_at(bip_graph(n), d, 4),
{
    let a = bip_graph(n);
    lemma_bip_wf(n);
    assert forall|d: (usize, usize)| #[trigger] is_dart(a, d) implies closes_at(a, d, 4) by {
        let v = d.0 as int;
        let w = d.1 as int;
        lemma_bip_square(n, v, w);
        let x = bip_after(n, w, v);
        let y = bip_after(n, x, w);
        lemma_bip_next(n, v, w);
        lemma_bip_next(n, w, x);
        lemma_bip_next(n, x, y);
        lemma_bip_next(n, y, v);
        assert(iter_dart(a, d, 1) == succ(a, iter_dart(a, d, 0)));
        assert(iter_dart(a, d, 1) == (w as usize, x as usize));
        assert(iter_dart(a, d, 2) == succ(a, iter_dart(a, d, 1)));
        assert(iter_dart(a, d, 2) == (x as usize, y as usize));
        assert(iter_dart(a, d, 3) == succ(a, iter_dart(a, d, 2)));
        assert(iter_dart(a, d, 3) == (y as usize, v as usize));
        assert(iter_dart(a, d, 4) == succ(a, iter_dart(a, d, 3)));
        assert(iter_dart(a, d, 4) == d);
        assert forall|i: nat| 1 <= i < 4 implies #[trigger] iter_dart(a, d, i) != d by {
            if i == 1 {
                assert(iter_dart(a, d, 1) == (w as usize, x as usize));
            } else if i == 2 {
                assert(iter_dart(a, d, 2) == (x as usize, y as usize));
            } else {
                assert(iter_dart(a, d, 3) == (y as usize, v as usize));
            }
        }
    }
}

proof fn lemma_bip_degrees(n: nat, k: int)
    requires
        3 <= n <= usize::MAX,
        2 <= k <= n,
    ensures
        degree_sum(bip_graph(n), k) == 2 * (n - 2) + 2 * (k - 2),
    decreases k,
{
    let a = bip_graph(n);
    if k == 2 {
        assert(degree_sum(a, 0) == 0);
        assert(a[0].len() == n - 2);
        assert(a[1].len() == n - 2);
        assert(degree_sum(a, 1) == degree_sum(a, 0) + a[0].len());
        assert(degree_sum(a, 2) == degree_sum(a, 1) + a[1].len());
    } else {
        lemma_bip_degrees(n, k - 1);
        assert(degree_sum(a, k) == degree_sum(a, k - 1) + a[k - 1].len());
        assert(a[k - 1] == bip_list(n, k - 1));
    }
}

proof fn lemma_bip_counts(n: nat, k: int)
    requires
        3 <= n <= usize::MAX,
        1 <= k <= n,
    ensures
        loop_count(bip_graph(n), k) == 0,
        count_roots(bip_graph(n), k) == 1,
        isolated_upto(bip_graph(n), k) == 0,
    decreases k,
{
    let a = bip_graph(n);
    lemma_bip_wf(n);
    if k > 1 {
        lemma_bip_counts(n, k - 1);
    }
    let v = k - 1;
    assert(a[v] == bip_list(n, v));
    lemma_bip_list(n, v, v as usize);
    assert(!a[v].contains(v as usize));
    assert(loop_count(a, k) == loop_count(a, k - 1));
    let w: usize = if v <= 1 { 2 } else { 0 };
    lemma_bip_list(n, v, w);
    assert(is_neighbour(a, v, w));
    assert(!no_neighbour(a, v));
    assert(isolated_upto(a, k) == isolated_upto(a, k - 1));
    assert(count_roots(a, 0) == 0);
    assert(count_roots(a, k) == count_roots(a, k - 1) + if is_component_root(a, v as usize) {
        1nat
    } else {
        0nat
    });
    if v == 0 {
        assert(is_component_root(a, 0));
    } else {
        assert(a[0] == bip_list(n, 0));
        lemma_bip_list(n, 0, 2);
        lemma_reach_refl(a, any_vertex(), 0);
        lemma_reach_step(a, any_vertex(), 0, 0, 2);
        if v == 1 {
            assert(a[2] == bip_list(n, 2));
            lemma_bip_list(n, 2, 1);
            lemma_reach_step(a, any_vertex(), 0, 2, 1);
        } else {
            lemma_bip_list(n, 0, v as usize);
            lemma_reach_step(a, any_vertex(), 0, 0, v as usize);
        }
        assert(reachable(a, 0, v as usize));
        assert(!is_component_root(a, v as usize));
    }
}

/// The complete bipartite graph with sides `{0, 1}` and `2..n`: well
/// formed, connected, planar, without a triangle, with `2n - 4` edges.
proof fn lemma_bip_planar(n: nat)
    requires
        3 <= n <= usize::MAX,
    ensures
        adj_wf(bip_graph(n)),
        bip_graph(n).len() == n,
        num_components(bip_graph(n)) == 1,
        num_edges(bip_graph(n)) == 2 * n - 4,
        !has_triangle_spec(bip_graph(n)),
        planar(bip_graph(n)),
{
    let a = bip_graph(n);
    lemma_bip_wf(n);
    lemma_bip_closes(n);
    lemma_bip_degrees(n, n as int);
    lemma_bip_counts(n, n as int);
    lemma_handshake(a);
    assert(num_edges(a) == 2 * n - 4);
    lemma_uniform_faces(a, 4);
    let fs = faces_of(a)->0;
    lemma_total_len(fs, 4);
    assert forall|x: int| 0 <= x < fs.len() implies (#[trigger] fs[x]).len() >= 4 by {}
    lemma_faces_darts_count(a, a, fs);
    assert forall|x: int| 0 <= x < fs.len() implies (#[trigger] fs[x]).len() <= 4 by {}
    lemma_total_upper(fs, 4);
    assert(fs.len() == planar_face_count(a));
    assert(planar_rotation(a, a));
    assert(!has_triangle_spec(a)) by {
        if has_triangle_spec(a) {
            let (u, v, w) = choose|u: usize, v: usize, w: usize| #[trigger] is_triangle(a, u, v, w);
            lemma_bip_list(n, u as int, v);
            lemma_bip_list(n, v as int, w);
            lemma_bip_list(n, u as int, w);
        }
    }
}

/// The edge limit of triangle-free planar graphs is reached: for every
/// `n >= 3` some connected planar graph on `n` vertices without a triangle
/// has exactly as many edges as `max_edges_triangle_free_planar(n)` allows
/// (and, by `lemma_planar_edge_limits`, none has more).
pub proof fn lemma_triangle_free_edge_limit_reached(n: nat)
    requires
        3 <= n <= usize::MAX,
    ensures
        exists|a: Seq<Seq<usize>>|
            adj_wf(a) && a.len() == n && num_components(a) == 1 && !has_triangle_spec(a) && #[trigger] planar(a)
                && num_edges(a) == triangle_free_edge_limit(n as int),
{
    lemma_bip_planar(n);
    let a = bip_graph(n);
    assert(adj_wf(a) && a.len() == n && num_components(a) == 1 && !has_triangle_spec(a) && planar(a) && num_edges(a)
        == triangle_free_edge_limit(n as int));
}

} // verus!
