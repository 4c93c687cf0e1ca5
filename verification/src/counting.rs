//! Counting facts about edge lists: each edge is listed once, a graph on
//! `n` vertices has at most `n(n-1)/2` edges, and at least `n - C` edges
//! when it has `C` components.

use vstd::prelude::*;
use vstd::relations::injective_on;
use vstd::set_lib::{lemma_int_range, lemma_len_subset, lemma_map_size, lemma_set_disjoint_lens, set_int_range};
use crate::{
    adj_wf, edge_from, edge_list, edges_upto, lemma_edge_list_contains, lemma_edges_upto_contains,
    lemma_filter_edge_from_contains, num_edges, vertex_edges,
};

use crate::euler::{count_roots, is_component_root, num_components};
use crate::paths::{any_vertex, lemma_reach_refl, lemma_reach_step, reachable, walk_within};

verus! {

proof fn lemma_vertex_edges_distinct(l: Seq<usize>, u: int)
    requires
        l.no_duplicates(),
        0 <= u <= usize::MAX,
    ensures
        l.filter_map(edge_from(u)).no_duplicates(),
    decreases l.len(),
{
    if l.len() > 0 {
        let rest = l.drop_last();
        assert(rest.no_duplicates()) by {
            assert forall|i: int, j: int| 0 <= i < j < rest.len() implies rest[i] != rest[j] by {
                assert(rest[i] == l[i] && rest[j] == l[j]);
            }
        }
        lemma_vertex_edges_distinct(rest, u);
        let fr = rest.filter_map(edge_from(u));
        let f = l.filter_map(edge_from(u));
        if u < l.last() {
            let e = (u as usize, l.last());
            assert(f == fr + seq![e]);
            assert(!fr.contains(e)) by {
                lemma_filter_edge_from_contains(rest, u, e.0, e.1);
                if rest.contains(l.last()) {
                    let i = choose|i: int| 0 <= i < rest.len() && rest[i] == l.last();
                    assert(l[i] == l[l.len() - 1]);
                }
            }
            assert forall|i: int, j: int| 0 <= i < j < f.len() implies f[i] != f[j] by {
                if j == fr.len() {
                    assert(f[i] == fr[i]);
                    assert(fr.contains(fr[i]));
                } else {
                    assert(f[i] == fr[i] && f[j] == fr[j]);
                }
            }
        } else {
            assert(f == fr);
        }
    }
}

proof fn lemma_edges_upto_distinct(a: Seq<Seq<usize>>, k: int)
    requires
        adj_wf(a),
        0 <= k <= a.len(),
        a.len() <= usize::MAX,
    ensures
        edges_upto(a, k).no_duplicates(),
    decreases k,
{
    if k > 0 {
        lemma_edges_upto_distinct(a, k - 1);
        lemma_vertex_edges_distinct(a[k - 1], k - 1);
        let p = edges_upto(a, k - 1);
        let q = vertex_edges(a, k - 1);
        let s = edges_upto(a, k);
        assert(s == p + q);
        assert forall|i: int, j: int| 0 <= i < j < s.len() implies s[i] != s[j] by {
            if i < p.len() && j >= p.len() {
                let e = p[i];
                assert(s[i] == e);
                assert(s[j] == q[j - p.len()]);
                assert(p.contains(e));
                lemma_edges_upto_contains(a, k - 1, e.0, e.1);
                assert(q.contains(q[j - p.len()]));
                lemma_filter_edge_from_contains(a[k - 1], k - 1, s[j].0, s[j].1);
            } else if j < p.len() {
                assert(s[i] == p[i] && s[j] == p[j]);
            } else {
                assert(s[i] == q[i - p.len()] && s[j] == q[j - p.len()]);
            }
        }
    }
}

/// Each edge is listed once.
pub proof fn lemma_edge_list_distinct(a: Seq<Seq<usize>>)
    requires
        adj_wf(a),
        a.len() <= usize::MAX,
    ensures
        edge_list(a).no_duplicates(),
{
    lemma_edges_upto_distinct(a, a.len() as int);
}

/// The pairs `(x, y)` with `x < y < n`.
pub open spec fn pairs_below(n: int) -> Set<(usize, usize)> {
    Set::new(|e: (usize, usize)| e.0 < e.1 && (e.1 as int) < n)
}

/// There are `n(n-1)/2` such pairs.
pub(crate) proof fn lemma_pairs_below_len(n: int)
    requires
        0 <= n <= usize::MAX + 1,
    ensures
        pairs_below(n).finite(),
        2 * pairs_below(n).len() == n * (n - 1),
    decreases n,
{
    if n == 0 {
        assert(pairs_below(0) =~= Set::<(usize, usize)>::empty());
    } else {
        let m = n - 1;
        lemma_pairs_below_len(m);
        let col = set_int_range(0, m).map(|x: int| (x as usize, m as usize));
        lemma_int_range(0, m);
        assert(injective_on(|x: int| (x as usize, m as usize), set_int_range(0, m))) by {
            assert forall|x: int, y: int|
                set_int_range(0, m).contains(x) && set_int_range(0, m).contains(y) && (x as usize, m as usize)
                    == (y as usize, m as usize) implies x == y by {}
        }
        lemma_map_size(set_int_range(0, m), col, |x: int| (x as usize, m as usize));
        assert(pairs_below(n) =~= pairs_below(m) + col) by {
            assert forall|e: (usize, usize)| pairs_below(n).contains(e) implies (pairs_below(m) + col).contains(
                e,
            ) by {
                if e.1 as int == m {
                    assert(set_int_range(0, m).contains(e.0 as int));
                    assert(col.contains((e.0 as int as usize, m as usize)));
                }
            }
        }
        assert(pairs_below(m).disjoint(col));
        lemma_set_disjoint_lens(pairs_below(m), col);
        assert(2 * pairs_below(n).len() == m * (m - 1) + 2 * m);
        assert(m * (m - 1) + 2 * m == n * (n - 1)) by (nonlinear_arith)
            requires
                m == n - 1,
        ;
    }
}

/// A graph on `n` vertices has at most `n(n-1)/2` edges.
pub proof fn lemma_edge_count_bound(a: Seq<Seq<usize>>)
    requires
        adj_wf(a),
        a.len() <= usize::MAX,
    ensures
        2 * num_edges(a) <= a.len() * (a.len() - 1),
{
    let el = edge_list(a);
    lemma_edge_list_distinct(a);
    el.unique_seq_to_set();
    lemma_pairs_below_len(a.len() as int);
    assert(el.to_set().subset_of(pairs_below(a.len() as int))) by {
        assert forall|e: (usize, usize)| el.to_set().contains(e) implies pairs_below(a.len() as int).contains(e) by {
            assert(el.contains(e));
            lemma_edge_list_contains(a, e.0, e.1);
            let i = choose|i: int| 0 <= i < a[e.0 as int].len() && a[e.0 as int][i] == e.1;
            assert(a[e.0 as int][i] < a.len());
        }
    }
    lemma_len_subset(el.to_set(), pairs_below(a.len() as int));
}

/// A walk of `k` steps leads from `r` to `v`.
pub open spec fn walk_of_len(a: Seq<Seq<usize>>, r: usize, v: usize, k: nat) -> bool {
    exists|p: Seq<usize>|
        #[trigger] walk_within(a, any_vertex(), p) && p.len() == k + 1 && p[0] == r && p.last() == v
}

/// `k` is the distance from `r` to `v`: the fewest steps of a walk between them.
pub open spec fn is_dist(a: Seq<Seq<usize>>, r: usize, v: usize, k: nat) -> bool {
    walk_of_len(a, r, v, k) && forall|j: nat| j < k ==> !#[trigger] walk_of_len(a, r, v, j)
}

proof fn lemma_dist_exists(a: Seq<Seq<usize>>, r: usize, v: usize, k: nat)
    requires
        walk_of_len(a, r, v, k),
    ensures
        exists|d: nat| d <= k && #[trigger] is_dist(a, r, v, d),
    decreases k,
{
    if exists|j: nat| j < k && #[trigger] walk_of_len(a, r, v, j) {
        let j = choose|j: nat| j < k && #[trigger] walk_of_len(a, r, v, j);
        lemma_dist_exists(a, r, v, j);
    } else {
        assert(is_dist(a, r, v, k));
    }
}

proof fn lemma_dist_unique(a: Seq<Seq<usize>>, r: usize, v: usize, k1: nat, k2: nat)
    requires
        is_dist(a, r, v, k1),
        is_dist(a, r, v, k2),
    ensures
        k1 == k2,
{
    if k1 < k2 {
        assert(!walk_of_len(a, r, v, k1));
    } else if k2 < k1 {
        assert(!walk_of_len(a, r, v, k2));
    }
}

/// A vertex at distance `k >= 1` has a neighbour at distance `k - 1`.
proof fn lemma_dist_parent(a: Seq<Seq<usize>>, r: usize, v: usize, k: nat)
    requires
        adj_wf(a),
        is_dist(a, r, v, k),
        k >= 1,
    ensures
        exists|u: usize| a[v as int].contains(u) && #[trigger] is_dist(a, r, u, (k - 1) as nat),
{
    let all = any_vertex();
    let p = choose|p: Seq<usize>|
        #[trigger] walk_within(a, all, p) && p.len() == k + 1 && p[0] == r && p.last() == v;
    let u = p[k - 1];
    let q = p.take(k as int);
    assert(walk_within(a, all, q)) by {
        assert forall|i: int| 0 <= i < q.len() implies (#[trigger] q[i]) < a.len() && all(q[i]) by {
            assert(q[i] == p[i]);
        }
        assert forall|i: int| 0 <= i < q.len() - 1 implies a[q[i] as int].contains(q[i + 1]) by {
            assert(q[i] == p[i] && q[i + 1] == p[i + 1]);
        }
    }
    assert(q.last() == u);
    assert(walk_of_len(a, r, u, (k - 1) as nat));
    let j0: int = k - 1;
    assert(a[p[j0] as int].contains(p[j0 + 1]));
    assert(p[j0 + 1] == v);
    assert(a[u as int].contains(v));
    assert forall|j: nat| j < k - 1 implies !#[trigger] walk_of_len(a, r, u, j) by {
        if walk_of_len(a, r, u, j) {
            let s = choose|s: Seq<usize>|
                #[trigger] walk_within(a, all, s) && s.len() == j + 1 && s[0] == r && s.last() == u;
            let t = s.push(v);
            assert(v < a.len()) by {
                assert(p[k as int] < a.len());
            }
            assert forall|i: int| 0 <= i < t.len() implies (#[trigger] t[i]) < a.len() && all(t[i]) by {
                if i < s.len() {
                    assert(t[i] == s[i]);
                }
            }
            assert forall|i: int| 0 <= i < t.len() - 1 implies a[t[i] as int].contains(t[i + 1]) by {
                if i < s.len() - 1 {
                    assert(t[i] == s[i] && t[i + 1] == s[i + 1]);
                } else {
                    assert(t[i] == u && t[i + 1] == v);
                }
            }
            assert(walk_within(a, all, t));
            assert(walk_of_len(a, r, v, j + 1));
        }
    }
    assert(a[v as int].contains(u));
    assert(is_dist(a, r, u, (k - 1) as nat));
}

/// `u` is the least vertex that reaches `v`.
pub open spec fn least_reacher_is(a: Seq<Seq<usize>>, v: usize, u: usize) -> bool {
    reachable(a, u, v) && forall|w: usize| w < u ==> !#[trigger] reachable(a, w, v)
}

/// The least vertex of the component of `v`.
pub open spec fn least_reacher(a: Seq<Seq<usize>>, v: usize) -> usize {
    choose|u: usize| least_reacher_is(a, v, u)
}

proof fn lemma_least_reacher_below(a: Seq<Seq<usize>>, v: usize, m: usize)
    requires
        reachable(a, m, v),
    ensures
        exists|u: usize| u <= m && #[trigger] least_reacher_is(a, v, u),
    decreases m,
{
    if exists|w: usize| w < m && #[trigger] reachable(a, w, v) {
        let w = choose|w: usize| w < m && #[trigger] reachable(a, w, v);
        lemma_least_reacher_below(a, v, w);
    } else {
        assert(least_reacher_is(a, v, m));
    }
}

pub(crate) proof fn lemma_least_reacher(a: Seq<Seq<usize>>, v: usize)
    requires
        v < a.len(),
    ensures
        least_reacher_is(a, v, least_reacher(a, v)),
        least_reacher(a, v) <= v,
        least_reacher(a, v) == v <==> is_component_root(a, v),
{
    lemma_reach_refl(a, any_vertex(), v);
    lemma_least_reacher_below(a, v, v);
    let r = least_reacher(a, v);
    if r > v {
        assert(!reachable(a, v, v));
    }
    if is_component_root(a, v) && r < v {
        assert(!reachable(a, r, v));
    }
}

/// Adjacent vertices share their least reacher.
proof fn lemma_least_reacher_adjacent(a: Seq<Seq<usize>>, u: usize, v: usize)
    requires
        adj_wf(a),
        u < a.len(),
        v < a.len(),
        a[v as int].contains(u),
    ensures
        least_reacher(a, u) == least_reacher(a, v),
{
    let all = any_vertex();
    lemma_least_reacher(a, u);
    lemma_least_reacher(a, v);
    assert(a[u as int].contains(v));
    assert forall|w: usize| reachable(a, w, u) <==> reachable(a, w, v) by {
        if reachable(a, w, u) {
            lemma_reach_step(a, all, w, u, v);
        }
        if reachable(a, w, v) {
            lemma_reach_step(a, all, w, v, u);
        }
    }
    let ru = least_reacher(a, u);
    let rv = least_reacher(a, v);
    if ru < rv {
        assert(reachable(a, ru, v));
    } else if rv < ru {
        assert(reachable(a, rv, u));
    }
}

/// The distance of `v` from the least vertex of its component.
pub open spec fn root_dist(a: Seq<Seq<usize>>, v: usize) -> nat {
    choose|d: nat| is_dist(a, least_reacher(a, v), v, d)
}

/// A neighbour of `v` one step closer to the least vertex of its component.
pub open spec fn parent_of(a: Seq<Seq<usize>>, v: usize) -> usize {
    choose|u: usize|
        a[v as int].contains(u) && #[trigger] is_dist(a, least_reacher(a, v), u, (root_dist(a, v) - 1) as nat)
}

proof fn lemma_root_dist(a: Seq<Seq<usize>>, v: usize)
    requires
        v < a.len(),
    ensures
        is_dist(a, least_reacher(a, v), v, root_dist(a, v)),
{
    let all = any_vertex();
    lemma_least_reacher(a, v);
    let r = least_reacher(a, v);
    let p = choose|p: Seq<usize>| #[trigger] walk_within(a, all, p) && p[0] == r && p.last() == v;
    assert(walk_of_len(a, r, v, (p.len() - 1) as nat));
    lemma_dist_exists(a, r, v, (p.len() - 1) as nat);
}

/// A vertex that is not the least of its component has a parent: a
/// neighbour in the same component, one step closer to its least vertex.
proof fn lemma_parent(a: Seq<Seq<usize>>, v: usize)
    requires
        adj_wf(a),
        v < a.len(),
        !is_component_root(a, v),
    ensures
        a[v as int].contains(parent_of(a, v)),
        parent_of(a, v) < a.len(),
        parent_of(a, v) != v,
        least_reacher(a, parent_of(a, v)) == least_reacher(a, v),
        root_dist(a, parent_of(a, v)) + 1 == root_dist(a, v),
{
    lemma_least_reacher(a, v);
    lemma_root_dist(a, v);
    let r = least_reacher(a, v);
    let d = root_dist(a, v);
    if d == 0 {
        let p = choose|p: Seq<usize>|
            #[trigger] walk_within(a, any_vertex(), p) && p.len() == d + 1 && p[0] == r && p.last() == v;
        assert(p[0] == p.last());
    }
    lemma_dist_parent(a, r, v, d);
    let u = parent_of(a, v);
    assert(a[v as int].contains(u) && is_dist(a, r, u, (d - 1) as nat));
    let i = choose|i: int| 0 <= i < a[v as int].len() && a[v as int][i] == u;
    assert(u < a.len());
    lemma_least_reacher_adjacent(a, u, v);
    lemma_root_dist(a, u);
    lemma_dist_unique(a, r, u, (d - 1) as nat, root_dist(a, u));
    if u == v {
        lemma_dist_unique(a, r, v, (d - 1) as nat, d);
    }
}

/// The vertices below `k` that are not the least of their component.
pub open spec fn non_roots(a: Seq<Seq<usize>>, k: int) -> Set<usize> {
    Set::new(|v: usize| (v as int) < k && !is_component_root(a, v))
}

proof fn lemma_non_roots_len(a: Seq<Seq<usize>>, k: int)
    requires
        0 <= k <= usize::MAX + 1,
    ensures
        non_roots(a, k).finite(),
        non_roots(a, k).len() + count_roots(a, k) == k,
    decreases k,
{
    if k == 0 {
        assert(non_roots(a, 0) =~= Set::<usize>::empty());
    } else {
        lemma_non_roots_len(a, k - 1);
        let v = (k - 1) as usize;
        if is_component_root(a, v) {
            assert(non_roots(a, k) =~= non_roots(a, k - 1));
        } else {
            assert(non_roots(a, k) =~= non_roots(a, k - 1).insert(v));
        }
    }
}

/// The pair of `u` and `v` in increasing order.
pub open spec fn edge_key(u: usize, v: usize) -> (usize, usize) {
    if u < v {
        (u, v)
    } else {
        (v, u)
    }
}

/// A graph on `n` vertices with `C` components has at least `n - C` edges.
pub proof fn lemma_edges_span_components(a: Seq<Seq<usize>>)
    requires
        adj_wf(a),
        a.len() <= usize::MAX,
    ensures
        num_edges(a) + num_components(a) >= a.len(),
{
    let n = a.len() as int;
    let nr = non_roots(a, n);
    lemma_non_roots_len(a, n);
    let f = |v: usize| edge_key(parent_of(a, v), v);
    assert(injective_on(f, nr)) by {
        assert forall|v: usize, w: usize| nr.contains(v) && nr.contains(w) && f(v) == f(w) implies v == w by {
            lemma_parent(a, v);
            lemma_parent(a, w);
            if v != w {
                assert(parent_of(a, v) == w && parent_of(a, w) == v);
            }
        }
    }
    let img = nr.map(f);
    lemma_map_size(nr, img, f);
    let el = edge_list(a);
    assert(img.subset_of(el.to_set())) by {
        assert forall|e: (usize, usize)| img.contains(e) implies el.to_set().contains(e) by {
            let v = choose|v: usize| nr.contains(v) && f(v) == e;
            lemma_parent(a, v);
            let u = parent_of(a, v);
            assert(a[u as int].contains(v));
            lemma_edge_list_contains(a, e.0, e.1);
        }
    }
    el.lemma_cardinality_of_set();
    lemma_len_subset(img, el.to_set());
}

/// The sum of the degrees of the vertices below `k`.
pub open spec fn degree_sum(a: Seq<Seq<usize>>, k: int) -> nat
    decreases k,
{
    if k <= 0 {
        0
    } else {
        degree_sum(a, k - 1) + a[k - 1].len()
    }
}

/// The number of vertices below `k` that list themselves (self-loops).
pub open spec fn loop_count(a: Seq<Seq<usize>>, k: int) -> nat
    decreases k,
{
    if k <= 0 {
        0
    } else {
        loop_count(a, k - 1) + if a[k - 1].contains((k - 1) as usize) {
            1nat
        } else {
            0nat
        }
    }
}

/// The darts `(v, w)`, `w` in the list of `v`, for `v` below `k`.
pub open spec fn darts_below(a: Seq<Seq<usize>>, k: int) -> Set<(usize, usize)> {
    Set::new(|d: (usize, usize)| (d.0 as int) < k && (d.0 as int) < a.len() && a[d.0 as int].contains(d.1))
}

/// The self-loop darts `(v, v)` for `v` below `k`.
pub open spec fn loops_below(a: Seq<Seq<usize>>, k: int) -> Set<(usize, usize)> {
    Set::new(|d: (usize, usize)| d.0 == d.1 && (d.0 as int) < k && (d.0 as int) < a.len() && a[d.0 as int].contains(d.1))
}

pub(crate) proof fn lemma_darts_below(a: Seq<Seq<usize>>, k: int)
    requires
        adj_wf(a),
        0 <= k <= a.len(),
        a.len() <= usize::MAX,
    ensures
        darts_below(a, k).finite(),
        darts_below(a, k).len() == degree_sum(a, k),
        loops_below(a, k).finite(),
        loops_below(a, k).len() == loop_count(a, k),
    decreases k,
{
    if k == 0 {
        assert(darts_below(a, 0) =~= Set::<(usize, usize)>::empty());
        assert(loops_below(a, 0) =~= Set::<(usize, usize)>::empty());
    } else {
        lemma_darts_below(a, k - 1);
        let v = (k - 1) as usize;
        let l = a[k - 1];
        let f = |w: usize| (v, w);
        let row = l.to_set().map(f);
        assert(l.no_duplicates());
        l.unique_seq_to_set();
        assert(injective_on(f, l.to_set())) by {
            assert forall|x: usize, y: usize| l.to_set().contains(x) && l.to_set().contains(y) && f(x) == f(y)
                implies x == y by {}
        }
        lemma_map_size(l.to_set(), row, f);
        assert(darts_below(a, k) =~= darts_below(a, k - 1) + row) by {
            assert forall|d: (usize, usize)| darts_below(a, k).contains(d) implies (darts_below(a, k - 1) + row).contains(
                d,
            ) by {
                if d.0 == v {
                    assert(l.to_set().contains(d.1));
                    assert(f(d.1) == d);
                }
            }
        }
        assert(darts_below(a, k - 1).disjoint(row));
        lemma_set_disjoint_lens(darts_below(a, k - 1), row);
        if l.contains(v) {
            assert(loops_below(a, k) =~= loops_below(a, k - 1).insert((v, v)));
        } else {
            assert(loops_below(a, k) =~= loops_below(a, k - 1));
        }
    }
}

/// The handshake law: the degrees add up to twice the number of edges plus
/// the number of self-loops.
pub proof fn lemma_handshake(a: Seq<Seq<usize>>)
    requires
        adj_wf(a),
        a.len() <= usize::MAX,
    ensures
        degree_sum(a, a.len() as int) == 2 * num_edges(a) + loop_count(a, a.len() as int),
{
    let n = a.len() as int;
    lemma_darts_below(a, n);
    let d = darts_below(a, n);
    let el = edge_list(a);
    let lt = el.to_set();
    lemma_edge_list_distinct(a);
    el.unique_seq_to_set();
    let sw = |e: (usize, usize)| (e.1, e.0);
    let gt = lt.map(sw);
    assert(injective_on(sw, lt)) by {
        assert forall|x: (usize, usize), y: (usize, usize)| lt.contains(x) && lt.contains(y) && sw(x) == sw(y)
            implies x == y by {}
    }
    lemma_map_size(lt, gt, sw);
    let q = loops_below(a, n);
    assert forall|e: (usize, usize)| lt.contains(e) <==> (d.contains(e) && e.0 < e.1) by {
        lemma_edge_list_contains(a, e.0, e.1);
    }
    assert forall|e: (usize, usize)| gt.contains(e) <==> (d.contains(e) && e.0 > e.1) by {
        lemma_edge_list_contains(a, e.1, e.0);
        if gt.contains(e) {
            let x = choose|x: (usize, usize)| lt.contains(x) && sw(x) == e;
            lemma_edge_list_contains(a, x.0, x.1);
            let i = choose|i: int| 0 <= i < a[x.0 as int].len() && a[x.0 as int][i] == x.1;
            assert(a[x.0 as int][i] < a.len());
        }
        if d.contains(e) && e.0 > e.1 {
            let i = choose|i: int| 0 <= i < a[e.0 as int].len() && a[e.0 as int][i] == e.1;
            assert(a[e.0 as int][i] < a.len());
            assert(a[e.1 as int].contains(e.0));
            assert(lt.contains((e.1, e.0)));
            assert(sw((e.1, e.0)) == e);
        }
    }
    assert(d =~= lt + gt + q);
    assert(lt.disjoint(gt));
    lemma_set_disjoint_lens(lt, gt);
    assert((lt + gt).disjoint(q));
    lemma_set_disjoint_lens(lt + gt, q);
}

} // verus!
