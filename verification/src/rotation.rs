//! Rotation systems and planarity.
//!
//! A rotation system gives every vertex a cyclic order of its neighbours;
//! its faces are the walks that turn, at each vertex, to the neighbour that
//! follows the one just left. A graph is planar exactly when some rotation
//! system meets Euler's formula `V - E + F = 1 + C` (the outer face counted
//! once): with `I` isolated vertices, which lie on no face walk, that is
//! `F = E - V + 2C - I` face walks. Each cyclic order is written starting
//! from the vertex's least neighbour, so that every cyclic order has one
//! way of being written down.

use vstd::prelude::*;
use vstd::set_lib::lemma_subset_equality;
use crate::{adj_wf, num_edges, Graph};
use crate::embedding::{compute_faces, copy_list, copy_lists, emb_view, entries_in_range, faces_of, valid_embedding_spec};
use crate::euler::{count_components, num_components};
use crate::kuratowski::lex_at;
use crate::face_walks::lemma_faces_stay_in_range;
use crate::euler_bound::lemma_planar_edge_bound;

verus! {

/// `w` is a neighbour of `v` other than `v` itself.
pub open spec fn is_neighbour(a: Seq<Seq<usize>>, v: int, w: usize) -> bool {
    a[v].contains(w) && w as int != v
}

/// `w` is the least neighbour of `v` other than `v` itself.
pub open spec fn least_neighbour(a: Seq<Seq<usize>>, v: int, w: usize) -> bool {
    is_neighbour(a, v, w) && forall|x: usize| #[trigger] is_neighbour(a, v, x) ==> w <= x
}

/// `l` is a cyclic order of the neighbours of `v` (other than `v`),
/// written from the least of them.
pub open spec fn cyclic_order(a: Seq<Seq<usize>>, v: int, l: Seq<usize>) -> bool {
    &&& l.no_duplicates()
    &&& forall|w: usize| #[trigger] l.contains(w) <==> is_neighbour(a, v, w)
    &&& l.len() > 0 ==> least_neighbour(a, v, l[0])
}

/// `r` is a rotation system of `a`.
pub open spec fn is_rotation(a: Seq<Seq<usize>>, r: Seq<Seq<usize>>) -> bool {
    r.len() == a.len() && forall|v: int| 0 <= v < a.len() ==> #[trigger] cyclic_order(a, v, r[v])
}

/// `v` has no neighbour other than itself.
pub open spec fn no_neighbour(a: Seq<Seq<usize>>, v: int) -> bool {
    forall|w: usize| !#[trigger] is_neighbour(a, v, w)
}

/// The number of vertices below `k` with no neighbour other than themselves.
pub open spec fn isolated_upto(a: Seq<Seq<usize>>, k: int) -> nat
    decreases k,
{
    if k <= 0 {
        0
    } else {
        isolated_upto(a, k - 1) + if no_neighbour(a, k - 1) {
            1nat
        } else {
            0nat
        }
    }
}

/// The number of isolated vertices.
pub open spec fn isolated_count(a: Seq<Seq<usize>>) -> nat {
    isolated_upto(a, a.len() as int)
}

/// The number of face walks Euler's formula asks of a plane drawing:
/// `E - V + 2C - I`.
pub open spec fn planar_face_count(a: Seq<Seq<usize>>) -> int {
    num_edges(a) - a.len() + 2 * num_components(a) - isolated_count(a)
}

/// `r` is a rotation system of `a` whose face walks meet Euler's formula.
pub open spec fn planar_rotation(a: Seq<Seq<usize>>, r: Seq<Seq<usize>>) -> bool {
    &&& is_rotation(a, r)
    &&& faces_of(r) matches Some(fs)
    &&& fs.len() == planar_face_count(a)
}

/// The graph is planar: some rotation system meets Euler's formula.
pub open spec fn planar(a: Seq<Seq<usize>>) -> bool {
    exists|r: Seq<Seq<usize>>| #[trigger] planar_rotation(a, r)
}

/// Two duplicate-free lists with the same elements have the same length.
proof fn lemma_same_elements_len(l: Seq<usize>, m: Seq<usize>)
    requires
        l.no_duplicates(),
        m.no_duplicates(),
        forall|w: usize| l.contains(w) <==> m.contains(w),
    ensures
        l.len() == m.len(),
{
    l.unique_seq_to_set();
    m.unique_seq_to_set();
    assert(l.to_set() =~= m.to_set());
}

/// A duplicate-free list of elements of a duplicate-free list `m`, as long
/// as `m`, has every element of `m`.
proof fn lemma_full_subset(l: Seq<usize>, m: Seq<usize>)
    requires
        l.no_duplicates(),
        m.no_duplicates(),
        forall|w: usize| l.contains(w) ==> m.contains(w),
        l.len() == m.len(),
    ensures
        forall|w: usize| l.contains(w) <==> m.contains(w),
{
    l.unique_seq_to_set();
    m.unique_seq_to_set();
    assert(l.to_set().subset_of(m.to_set()));
    lemma_subset_equality(l.to_set(), m.to_set());
    assert forall|w: usize| m.contains(w) implies l.contains(w) by {
        assert(m.to_set().contains(w));
        assert(l.to_set().contains(w));
    }
}

/// The neighbours of `v` other than `v`, in list order.
fn neighbour_list(graph: &Graph, v: usize) -> (r: Vec<usize>)
    requires
        graph.wf(),
        v < graph@.len(),
    ensures
        r@.no_duplicates(),
        forall|w: usize| #[trigger] r@.contains(w) <==> is_neighbour(graph@, v as int, w),
{
    let ghost a = graph@;
    let list = graph.neighbors(v);
    let mut r: Vec<usize> = Vec::new();
    let mut j: usize = 0;
    while j < list.len()
        invariant
            list@ == a[v as int],
            a[v as int].no_duplicates(),
            j <= list@.len(),
            r@.no_duplicates(),
            forall|w: usize| #[trigger] r@.contains(w) <==> (list@.take(j as int).contains(w) && w != v),
        decreases list@.len() - j,
    {
        let x = list[j];
        assert(list@.take(j + 1) =~= list@.take(j as int).push(x));
        assert(!list@.take(j as int).contains(x)) by {
            if list@.take(j as int).contains(x) {
                let k = choose|k: int| 0 <= k < j && list@.take(j as int)[k] == x;
                assert(list@[k] == list@[j as int]);
            }
        }
        let ghost r0 = r@;
        if x != v {
            r.push(x);
            proof {
                assert forall|p: int, q: int| 0 <= p < q < r@.len() implies r@[p] != r@[q] by {
                    if q == r0.len() {
                        assert(r0.contains(r0[p]));
                    } else {
                        assert(r@[p] == r0[p] && r@[q] == r0[q]);
                    }
                }
            }
        }
        proof {
            assert forall|w: usize| #[trigger] r@.contains(w) <==> (list@.take(j + 1).contains(w) && w != v) by {
                crate::paths::lemma_push_contains(list@.take(j as int), x, w);
                if x != v {
                    crate::paths::lemma_push_contains(r0, x, w);
                }
            }
        }
        j = j + 1;
    }
    assert(list@.take(j as int) =~= list@);
    r
}

/// The least entry of a non-empty list.
fn least_of(l: &Vec<usize>) -> (m: usize)
    requires
        l@.len() > 0,
    ensures
        l@.contains(m),
        forall|x: usize| #[trigger] l@.contains(x) ==> m <= x,
{
    let mut m = l[0];
    let mut i: usize = 1;
    assert(l@.take(1)[0] == m);
    while i < l.len()
        invariant
            1 <= i <= l@.len(),
            l@.take(i as int).contains(m),
            forall|k: int| 0 <= k < i ==> m <= l@[k],
        decreases l@.len() - i,
    {
        assert(l@.take(i + 1) =~= l@.take(i as int).push(l@[i as int]));
        proof {
            crate::paths::lemma_push_contains(l@.take(i as int), l@[i as int], m);
        }
        if l[i] < m {
            m = l[i];
            proof {
                crate::paths::lemma_push_contains(l@.take(i as int), l@[i as int], m);
            }
        }
        i = i + 1;
    }
    assert(l@.take(i as int) =~= l@);
    m
}

/// The neighbour lists `nb` list each vertex's neighbours other than
/// itself, once each, and `mins` holds each vertex's least neighbour.
pub open spec fn tables_ok(a: Seq<Seq<usize>>, nb: Seq<Seq<usize>>, mins: Seq<usize>) -> bool {
    &&& nb.len() == a.len()
    &&& mins.len() == a.len()
    &&& forall|v: int| 0 <= v < a.len() ==> (#[trigger] nb[v]).no_duplicates()
    &&& forall|v: int, w: usize| 0 <= v < a.len() ==> (#[trigger] nb[v].contains(w) <==> is_neighbour(a, v, w))
    &&& forall|v: int| 0 <= v < a.len() && nb[v].len() > 0 ==> least_neighbour(a, v, #[trigger] mins[v])
}

/// A rotation system in the making: cyclic orders `rv` for the vertices
/// before `v`, and the start `cur` of the cyclic order of `v`.
pub open spec fn partial_ok(a: Seq<Seq<usize>>, nb: Seq<Seq<usize>>, rv: Seq<Seq<usize>>, cur: Seq<usize>, v: int) -> bool {
    &&& 0 <= v <= a.len()
    &&& rv.len() == v
    &&& forall|x: int| 0 <= x < v ==> #[trigger] cyclic_order(a, x, rv[x])
    &&& v == a.len() ==> cur.len() == 0
    &&& v < a.len() ==> {
        &&& cur.no_duplicates()
        &&& forall|w: usize| #[trigger] cur.contains(w) ==> is_neighbour(a, v, w)
        &&& cur.len() <= nb[v].len()
        &&& nb[v].len() > 0 ==> cur.len() > 0 && least_neighbour(a, v, cur[0])
    }
}

/// `r` completes the partial rotation system.
pub open spec fn completes(r: Seq<Seq<usize>>, rv: Seq<Seq<usize>>, cur: Seq<usize>, v: int) -> bool {
    &&& forall|x: int| 0 <= x < v ==> r[x] == rv[x]
    &&& v < r.len() ==> cur.len() <= r[v].len() && forall|i: int| 0 <= i < cur.len() ==> r[v][i] == cur[i]
}

proof fn lemma_least_unique(a: Seq<Seq<usize>>, v: int, x: usize, y: usize)
    requires
        least_neighbour(a, v, x),
        least_neighbour(a, v, y),
    ensures
        x == y,
{
    assert(is_neighbour(a, v, y));
    assert(is_neighbour(a, v, x));
}

/// `x` comes before `y` in lexicographic order.
pub open spec fn list_lt(x: Seq<usize>, y: Seq<usize>) -> bool {
    exists|t: int| #[trigger] lex_at(x, y, t)
}

/// `q` comes before `r`: they agree on the cyclic orders of the vertices
/// before some `v`, and that of `v` comes first in lexicographic order.
pub open spec fn rot_lt(q: Seq<Seq<usize>>, r: Seq<Seq<usize>>) -> bool {
    exists|v: int| 0 <= v < q.len() && v < r.len() && (forall|x: int| 0 <= x < v ==> q[x] == r[x]) && #[trigger] list_lt(
        q[v],
        r[v],
    )
}

/// `r` is the first planar rotation system of `a` in that order.
pub open spec fn least_planar_rotation(a: Seq<Seq<usize>>, r: Seq<Seq<usize>>) -> bool {
    &&& planar_rotation(a, r)
    &&& forall|q: Seq<Seq<usize>>| #[trigger] planar_rotation(a, q) ==> !rot_lt(q, r)
}

proof fn lemma_list_lt_asym(x: Seq<usize>, y: Seq<usize>)
    requires
        list_lt(x, y),
    ensures
        !list_lt(y, x),
        x != y,
{
    let t = choose|t: int| #[trigger] lex_at(x, y, t);
    if list_lt(y, x) {
        let s = choose|s: int| #[trigger] lex_at(y, x, s);
        if s < t {
            assert(x[s] == y[s]);
        } else if t < s {
            assert(y[t] == x[t]);
        }
    }
}

proof fn lemma_rot_lt_asym(q: Seq<Seq<usize>>, r: Seq<Seq<usize>>)
    requires
        rot_lt(q, r),
    ensures
        !rot_lt(r, q),
{
    let v = choose|v: int| 0 <= v < q.len() && v < r.len() && (forall|x: int| 0 <= x < v ==> q[x] == r[x]) && #[trigger] list_lt(
        q[v],
        r[v],
    );
    lemma_list_lt_asym(q[v], r[v]);
    if rot_lt(r, q) {
        let w = choose|w: int| 0 <= w < r.len() && w < q.len() && (forall|x: int| 0 <= x < w ==> r[x] == q[x]) && #[trigger] list_lt(
            r[w],
            q[w],
        );
        lemma_list_lt_asym(r[w], q[w]);
        if w < v {
            assert(q[w] == r[w]);
        } else if v < w {
            assert(r[v] == q[v]);
        }
    }
}

/// A planar rotation system completing the partial one, if any.
fn search_rotation(
    graph: &Graph,
    nb: &Vec<Vec<usize>>,
    mins: &Vec<usize>,
    target: i128,
    rot: &mut Vec<Vec<usize>>,
    cur: &mut Vec<usize>,
    v: usize,
    room: usize,
) -> (r: Option<Vec<Vec<usize>>>)
    requires
        graph.wf(),
        tables_ok(graph@, emb_view(nb@), mins@),
        target == planar_face_count(graph@),
        partial_ok(graph@, emb_view(nb@), emb_view(old(rot)@), old(cur)@, v as int),
        v < graph@.len() ==> room == emb_view(nb@)[v as int].len() - old(cur)@.len(),
    ensures
        emb_view(final(rot)@) == emb_view(old(rot)@),
        final(cur)@ == old(cur)@,
        r matches Some(rr) ==> planar_rotation(graph@, emb_view(rr@)) && completes(
            emb_view(rr@),
            emb_view(old(rot)@),
            old(cur)@,
            v as int,
        ) && forall|q: Seq<Seq<usize>>|
            #[trigger] planar_rotation(graph@, q) && completes(q, emb_view(old(rot)@), old(cur)@, v as int) ==> !rot_lt(
                q,
                emb_view(rr@),
            ),
        r is None ==> forall|q: Seq<Seq<usize>>|
            #[trigger] planar_rotation(graph@, q) ==> !completes(q, emb_view(old(rot)@), old(cur)@, v as int),
    decreases graph@.len() - v, room,
{
    let ghost a = graph@;
    let ghost nbv = emb_view(nb@);
    let ghost rv = emb_view(rot@);
    let ghost c0 = cur@;
    let n = graph.vertex_count();
    if v == n {
        proof {
            assert(is_rotation(a, rv));
            assert forall|u: int, i: int| 0 <= u < rv.len() && 0 <= i < rv[u].len() implies (#[trigger] rv[u][i])
                < rv.len() by {
                assert(cyclic_order(a, u, rv[u]));
                assert(rv[u].contains(rv[u][i]));
                let j = choose|j: int| 0 <= j < a[u].len() && a[u][j] == rv[u][i];
            }
            lemma_faces_stay_in_range(rv);
            assert forall|q: Seq<Seq<usize>>| #[trigger] planar_rotation(a, q) && completes(q, rv, c0, v as int)
                implies q == rv by {
                assert(q =~= rv);
            }
        }
        match compute_faces(rot) {
            Some(fs) => {
                if fs.len() as i128 == target {
                    let rr = copy_lists(rot);
                    proof {
                        assert(completes(rv, rv, c0, v as int));
                        assert forall|q: Seq<Seq<usize>>|
                            #[trigger] planar_rotation(a, q) && completes(q, rv, c0, v as int) implies !rot_lt(q, rv) by {
                            if rot_lt(rv, rv) {
                                lemma_rot_lt_asym(rv, rv);
                            }
                        }
                    }
                    return Some(rr);
                }
            },
            None => {},
        }
        return None;
    }
    assert(nb@[v as int]@ == nbv[v as int]);
    let d = nb[v].len();
    let k = cur.len();
    if k == d {
        proof {
            lemma_full_subset(c0, nbv[v as int]);
            assert(cyclic_order(a, v as int, c0));
        }
        let c2 = copy_list(cur);
        rot.push(c2);
        let mut next: Vec<usize> = Vec::new();
        if v + 1 < n {
            assert(nb@[v + 1]@ == nbv[v + 1]);
            if nb[v + 1].len() > 0 {
                next.push(mins[v + 1]);
            }
        }
        let ghost rv1 = emb_view(rot@);
        proof {
            assert(rv1 =~= rv.push(c0));
            assert forall|x: int| 0 <= x < v + 1 implies #[trigger] cyclic_order(a, x, rv1[x]) by {
                if x < v {
                    assert(rv1[x] == rv[x]);
                }
            }
            if v + 1 < n {
                if nbv[v + 1].len() > 0 {
                    assert(next@ =~= seq![mins@[v + 1]]);
                    assert forall|w: usize| #[trigger] next@.contains(w) implies is_neighbour(a, v + 1, w) by {
                        assert(next@[0] == w);
                    }
                }
            }
        }
        let room2: usize = if v + 1 < n {
            nb[v + 1].len() - next.len()
        } else {
            0
        };
        let res = search_rotation(graph, nb, mins, target, rot, &mut next, v + 1, room2);
        let ghost before_pop = rot@;
        rot.pop();
        proof {
            assert(rot@ == before_pop.drop_last());
            assert(emb_view(before_pop) == rv1);
            assert(emb_view(rot@) =~= emb_view(before_pop).drop_last());
            assert(emb_view(rot@) =~= rv);
            assert forall|q: Seq<Seq<usize>>| #[trigger] planar_rotation(a, q) && completes(q, rv, c0, v as int)
                implies completes(q, rv1, next@, v + 1) by {
                assert(cyclic_order(a, v as int, q[v as int]));
                lemma_same_elements_len(q[v as int], nbv[v as int]);
                assert(q[v as int] =~= c0);
                if v + 1 < n && nbv[v + 1].len() > 0 {
                    assert(cyclic_order(a, v + 1, q[v + 1]));
                    lemma_same_elements_len(q[v + 1], nbv[v + 1]);
                    lemma_least_unique(a, v + 1, q[v + 1][0], mins@[v + 1]);
                }
            }
            if res is Some {
                let rr = emb_view(res->0@);
                assert(completes(rr, rv1, next@, v + 1));
                assert(rr[v as int] == c0);
                assert(completes(rr, rv, c0, v as int));
            }
        }
        return res;
    }
    let mut x: usize = 0;
    while x < n
        invariant
            graph.wf(),
            a == graph@,
            nbv == emb_view(nb@),
            n == a.len(),
            v < n,
            tables_ok(a, nbv, mins@),
            target == planar_face_count(a),
            partial_ok(a, nbv, rv, c0, v as int),
            emb_view(rot@) == rv,
            rv == emb_view(old(rot)@),
            cur@ == c0,
            c0 == old(cur)@,
            k == c0.len(),
            k < d,
            d == nbv[v as int].len(),
            room == d - k,
            x <= n,
            forall|q: Seq<Seq<usize>>|
                #[trigger] planar_rotation(a, q) && completes(q, rv, c0, v as int) ==> q[v as int][k as int] >= x,
        decreases n - x,
    {
        assert(nb@[v as int]@ == nbv[v as int]);
        let is_nb = crate::list_contains(nb[v].as_slice(), x);
        if is_nb && !crate::list_contains(cur.as_slice(), x) {
            cur.push(x);
            let ghost c1 = cur@;
            proof {
                assert(c1 == c0.push(x));
                assert(nbv[v as int].contains(x));
                assert forall|p: int, q: int| 0 <= p < q < c1.len() implies c1[p] != c1[q] by {
                    if q == k {
                        assert(c0.contains(c0[p]));
                    } else {
                        assert(c1[p] == c0[p] && c1[q] == c0[q]);
                    }
                }
                assert forall|w: usize| #[trigger] c1.contains(w) implies is_neighbour(a, v as int, w) by {
                    crate::paths::lemma_push_contains(c0, x, w);
                }
                if nbv[v as int].len() > 0 {
                    assert(c1[0] == c0[0]);
                }
            }
            let res = search_rotation(graph, nb, mins, target, rot, cur, v, room - 1);
            cur.pop();
            proof {
                assert(cur@ =~= c0);
            }
            if res.is_some() {
                proof {
                    let rr = emb_view(res->0@);
                    assert(completes(rr, rv, c1, v as int));
                    assert(completes(rr, rv, c0, v as int));
                    assert forall|q: Seq<Seq<usize>>|
                        #[trigger] planar_rotation(a, q) && completes(q, rv, c0, v as int) implies !rot_lt(q, rr) by {
                        assert(cyclic_order(a, v as int, q[v as int]));
                        lemma_same_elements_len(q[v as int], nbv[v as int]);
                        if q[v as int][k as int] == x {
                            assert(completes(q, rv, c1, v as int));
                        } else {
                            assert(cyclic_order(a, v as int, rr[v as int]));
                            lemma_same_elements_len(rr[v as int], nbv[v as int]);
                            assert(rr[v as int][k as int] == x);
                            assert(q[v as int][k as int] > x);
                            assert forall|t: int| 0 <= t < k implies rr[v as int][t] == q[v as int][t] by {
                                assert(rr[v as int][t] == c0[t]);
                            }
                            assert(lex_at(rr[v as int], q[v as int], k as int));
                            assert(list_lt(rr[v as int], q[v as int]));
                            assert(rot_lt(rr, q));
                            lemma_rot_lt_asym(rr, q);
                        }
                    }
                }
                return res;
            }
            proof {
                assert forall|q: Seq<Seq<usize>>|
                    #[trigger] planar_rotation(a, q) && completes(q, rv, c0, v as int) implies q[v as int][k as int]
                    >= x + 1 by {
                    assert(cyclic_order(a, v as int, q[v as int]));
                    lemma_same_elements_len(q[v as int], nbv[v as int]);
                    if q[v as int][k as int] == x {
                        assert(completes(q, rv, c1, v as int));
                    }
                }
            }
        } else {
            proof {
                assert forall|q: Seq<Seq<usize>>|
                    #[trigger] planar_rotation(a, q) && completes(q, rv, c0, v as int) implies q[v as int][k as int]
                    >= x + 1 by {
                    assert(cyclic_order(a, v as int, q[v as int]));
                    lemma_same_elements_len(q[v as int], nbv[v as int]);
                    if q[v as int][k as int] == x {
                        assert(q[v as int].contains(x));
                        if is_nb {
                            let j = choose|j: int| 0 <= j < c0.len() && c0[j] == x;
                            assert(q[v as int][j] == x);
                        }
                    }
                }
            }
        }
        x = x + 1;
    }
    proof {
        assert forall|q: Seq<Seq<usize>>| #[trigger] planar_rotation(a, q) implies !completes(q, rv, c0, v as int) by {
            if completes(q, rv, c0, v as int) {
                assert(cyclic_order(a, v as int, q[v as int]));
                lemma_same_elements_len(q[v as int], nbv[v as int]);
                let y = q[v as int][k as int];
                assert(q[v as int].contains(y));
                let j = choose|j: int| 0 <= j < a[v as int].len() && a[v as int][j] == y;
                assert(a[v as int][j] < a.len());
            }
        }
    }
    None
}

/// A rotation system of the graph that meets Euler's formula, if the graph
/// is planar.
pub fn planar_rotation_of(graph: &Graph) -> (r: Option<Vec<Vec<usize>>>)
    requires
        graph.wf(),
    ensures
        r is None <==> !planar(graph@),
        r matches Some(rr) ==> emb_view(rr@) == first_planar_rotation(graph@) && least_planar_rotation(
            graph@,
            emb_view(rr@),
        ),
{
    let ghost a = graph@;
    let n = graph.vertex_count();
    let mut nb: Vec<Vec<usize>> = Vec::new();
    let mut mins: Vec<usize> = Vec::new();
    let mut isolated: usize = 0;
    let mut v: usize = 0;
    while v < n
        invariant
            graph.wf(),
            a == graph@,
            n == a.len(),
            v <= n,
            nb@.len() == v,
            mins@.len() == v,
            isolated == isolated_upto(a, v as int),
            isolated <= v,
            forall|x: int| 0 <= x < v ==> (#[trigger] nb@[x])@.no_duplicates(),
            forall|x: int, w: usize| 0 <= x < v ==> (#[trigger] nb@[x]@.contains(w) <==> is_neighbour(a, x, w)),
            forall|x: int| 0 <= x < v && nb@[x]@.len() > 0 ==> least_neighbour(a, x, #[trigger] mins@[x]),
        decreases n - v,
    {
        let row = neighbour_list(graph, v);
        if row.len() > 0 {
            let m = least_of(&row);
            mins.push(m);
            proof {
                assert(row@.contains(m));
                assert forall|x: usize| #[trigger] is_neighbour(a, v as int, x) implies m <= x by {
                    assert(row@.contains(x));
                }
                assert(least_neighbour(a, v as int, m));
            }
        } else {
            mins.push(0);
            isolated = isolated + 1;
            proof {
                assert forall|w: usize| !#[trigger] is_neighbour(a, v as int, w) by {
                    if is_neighbour(a, v as int, w) {
                        assert(row@.contains(w));
                    }
                }
            }
        }
        proof {
            if row@.len() > 0 {
                assert(row@.contains(row@[0]));
                assert(!no_neighbour(a, v as int));
            }
        }
        nb.push(row);
        v = v + 1;
    }
    let ghost nbv = emb_view(nb@);
    proof {
        assert forall|x: int| 0 <= x < n implies (#[trigger] nbv[x]).no_duplicates() by {
            assert(nbv[x] == nb@[x]@);
        }
        assert forall|x: int, w: usize| 0 <= x < n implies (#[trigger] nbv[x].contains(w) <==> is_neighbour(a, x, w)) by {
            assert(nbv[x] == nb@[x]@);
        }
        assert forall|x: int| 0 <= x < n && nbv[x].len() > 0 implies least_neighbour(a, x, #[trigger] mins@[x]) by {
            assert(nbv[x] == nb@[x]@);
        }
        assert(tables_ok(a, nbv, mins@));
    }
    let e = graph.edge_count();
    let c = count_components(graph);
    let target: i128 = (e as i128) - (n as i128) + 2 * (c as i128) - (isolated as i128);
    // Euler's bound settles connected graphs with too many edges at once
    if n >= 3 && c == 1 && isolated == 0 && (e as u128) > 3 * (n as u128) - 6 {
        proof {
            if planar(a) {
                lemma_planar_edge_bound(a);
            }
        }
        return None;
    }
    let mut rot: Vec<Vec<usize>> = Vec::new();
    let mut cur: Vec<usize> = Vec::new();
    if n > 0 && nb[0].len() > 0 {
        cur.push(mins[0]);
    }
    proof {
        assert(emb_view(rot@) =~= Seq::<Seq<usize>>::empty());
        if n > 0 {
            assert(nb@[0]@ == nbv[0]);
            if nbv[0].len() > 0 {
                assert(cur@[0] == mins@[0]);
                assert forall|w: usize| #[trigger] cur@.contains(w) implies is_neighbour(a, 0, w) by {
                    assert(cur@[0] == w);
                }
            }
        }
    }
    let room: usize = if n > 0 {
        nb[0].len() - cur.len()
    } else {
        0
    };
    let ghost c0 = cur@;
    let r = search_rotation(graph, &nb, &mins, target, &mut rot, &mut cur, 0, room);
    proof {
        assert forall|q: Seq<Seq<usize>>| #[trigger] planar_rotation(a, q) implies completes(
            q,
            Seq::<Seq<usize>>::empty(),
            c0,
            0,
        ) by {
            if n > 0 && nbv[0].len() > 0 {
                assert(cyclic_order(a, 0, q[0]));
                lemma_same_elements_len(q[0], nbv[0]);
                lemma_least_unique(a, 0, q[0][0], mins@[0]);
            }
        }
        if r is None && planar(a) {
            let q = choose|q: Seq<Seq<usize>>| #[trigger] planar_rotation(a, q);
        }
        if r is Some {
            lemma_first_unique(a, emb_view(r->0@));
        }
    }
    r
}

/// Two different lists of the same length are ordered one way or the other.
proof fn lemma_list_lt_total(x: Seq<usize>, y: Seq<usize>)
    requires
        x.len() == y.len(),
        x != y,
    ensures
        list_lt(x, y) || list_lt(y, x),
    decreases x.len(),
{
    if x.len() == 0 {
        assert(x =~= y);
    } else if x[0] != y[0] {
        if x[0] < y[0] {
            assert(lex_at(x, y, 0));
        } else {
            assert(lex_at(y, x, 0));
        }
    } else {
        let x1 = x.drop_first();
        let y1 = y.drop_first();
        assert(x1 != y1) by {
            if x1 == y1 {
                assert forall|i: int| 0 <= i < x.len() implies x[i] == y[i] by {
                    if i > 0 {
                        assert(x[i] == x1[i - 1] && y[i] == y1[i - 1]);
                    }
                }
                assert(x =~= y);
            }
        }
        lemma_list_lt_total(x1, y1);
        if list_lt(x1, y1) {
            let t = choose|t: int| #[trigger] lex_at(x1, y1, t);
            assert forall|q: int| 0 <= q < t + 1 implies x[q] == y[q] by {
                if q > 0 {
                    assert(x[q] == x1[q - 1] && y[q] == y1[q - 1]);
                }
            }
            assert(lex_at(x, y, t + 1));
        } else {
            let t = choose|t: int| #[trigger] lex_at(y1, x1, t);
            assert forall|q: int| 0 <= q < t + 1 implies y[q] == x[q] by {
                if q > 0 {
                    assert(x[q] == x1[q - 1] && y[q] == y1[q - 1]);
                }
            }
            assert(lex_at(y, x, t + 1));
        }
    }
}

/// Two different rotation systems of a graph are ordered one way or the other.
proof fn lemma_rot_lt_total(a: Seq<Seq<usize>>, q: Seq<Seq<usize>>, r: Seq<Seq<usize>>, v: int)
    requires
        is_rotation(a, q),
        is_rotation(a, r),
        0 <= v <= a.len(),
        forall|x: int| 0 <= x < v ==> q[x] == r[x],
        q != r,
    ensures
        rot_lt(q, r) || rot_lt(r, q),
    decreases a.len() - v,
{
    if v == a.len() {
        assert(q =~= r);
    } else if q[v] == r[v] {
        lemma_rot_lt_total(a, q, r, v + 1);
    } else {
        assert(cyclic_order(a, v, q[v]));
        assert(cyclic_order(a, v, r[v]));
        assert forall|w: usize| q[v].contains(w) <==> r[v].contains(w) by {}
        lemma_same_elements_len(q[v], r[v]);
        lemma_list_lt_total(q[v], r[v]);
        if list_lt(q[v], r[v]) {
            assert(rot_lt(q, r));
        } else {
            assert(rot_lt(r, q));
        }
    }
}

/// The first planar rotation system of a planar graph.
pub open spec fn first_planar_rotation(a: Seq<Seq<usize>>) -> Seq<Seq<usize>> {
    choose|r: Seq<Seq<usize>>| #[trigger] least_planar_rotation(a, r)
}

/// There is at most one first planar rotation system.
pub proof fn lemma_first_unique(a: Seq<Seq<usize>>, r: Seq<Seq<usize>>)
    requires
        least_planar_rotation(a, r),
    ensures
        first_planar_rotation(a) == r,
{
    let f = first_planar_rotation(a);
    assert(least_planar_rotation(a, f));
    if f != r {
        lemma_rot_lt_total(a, f, r, 0);
    }
}

/// A rotation system is a valid embedding: every entry is a vertex that
/// lists the entry's owner back.
pub proof fn lemma_rotation_valid(a: Seq<Seq<usize>>, r: Seq<Seq<usize>>)
    requires
        adj_wf(a),
        a.len() <= usize::MAX,
        is_rotation(a, r),
    ensures
        valid_embedding_spec(r),
        entries_in_range(r),
{
    assert forall|u: int, i: int| 0 <= u < r.len() && 0 <= i < r[u].len() implies (#[trigger] r[u][i]) < r.len()
        && r[r[u][i] as int].contains(u as usize) by {
        let w = r[u][i];
        assert(cyclic_order(a, u, r[u]));
        assert(r[u].contains(w));
        assert(a[u].contains(w));
        let j = choose|j: int| 0 <= j < a[u].len() && a[u][j] == w;
        assert(a[u][j] < a.len());
        assert(a[w as int].contains(u as usize));
        assert(cyclic_order(a, w as int, r[w as int]));
        assert(is_neighbour(a, w as int, u as usize));
    }
}

} // verus!
