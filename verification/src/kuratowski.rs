//! Kuratowski subgraph detection.
//!
//! Decides whether a graph is non-planar, which by Kuratowski's theorem is
//! whether it contains a subdivision of K₅ or K₃,₃, and searches a graph of
//! any size for K₅ and for K₃,₃ as subgraphs: five pairwise adjacent
//! vertices, or two disjoint triples with every vertex of one adjacent to
//! every vertex of the other.

use vstd::prelude::*;
use crate::Graph;
use crate::embedding::copy_list;
use crate::rotation::{planar, planar_rotation_of};

verus! {

/// Result of Kuratowski subgraph detection.
#[derive(Debug, Clone)]
pub struct KuratowskiResult {
    /// Whether the graph contains a Kuratowski subgraph (a subdivision of
    /// K₅ or K₃,₃), that is, whether it is non-planar.
    pub found: bool,
    /// Type of obstruction found.
    pub obstruction: KuratowskiObstruction,
}

/// The type of Kuratowski obstruction found.
#[derive(Debug, Clone, PartialEq)]
pub enum KuratowskiObstruction {
    /// No obstruction found.
    NoObstruction,
    /// K₅ (complete graph on 5 vertices): its vertices in increasing order.
    K5(Vec<usize>),
    /// K₃,₃ (complete bipartite graph): its two sides, each in increasing order.
    K33(Vec<usize>, Vec<usize>),
}

/// Strictly increasing, so without repeats.
pub open spec fn increasing(s: Seq<usize>) -> bool {
    forall|i: int, j: int| 0 <= i < j < s.len() ==> s[i] < s[j]
}

/// The listed vertices are pairwise adjacent.
pub open spec fn is_clique(a: Seq<Seq<usize>>, vs: Seq<usize>) -> bool {
    forall|i: int, j: int| 0 <= i < j < vs.len() ==> a[vs[i] as int].contains(vs[j])
}

/// Every listed vertex is a vertex of the graph.
pub open spec fn in_range(a: Seq<Seq<usize>>, vs: Seq<usize>) -> bool {
    forall|i: int| 0 <= i < vs.len() ==> (#[trigger] vs[i] as int) < a.len()
}

/// `x` and `y` agree before position `t`, where `x` is smaller.
pub open spec fn lex_at(x: Seq<usize>, y: Seq<usize>, t: int) -> bool {
    &&& 0 <= t < x.len()
    &&& t < y.len()
    &&& forall|q: int| 0 <= q < t ==> x[q] == y[q]
    &&& x[t] < y[t]
}

/// `x` comes before `y` in lexicographic order.
pub open spec fn lex_lt(x: Seq<usize>, y: Seq<usize>) -> bool {
    exists|t: int| #[trigger] lex_at(x, y, t)
}

/// `v` is adjacent to every vertex of `l` and not one of them.
pub open spec fn shared_neighbour(a: Seq<Seq<usize>>, l: Seq<usize>, v: usize) -> bool {
    !l.contains(v) && forall|q: int| 0 <= q < l.len() ==> a[l[q] as int].contains(v)
}

/// The common neighbours of `l` below `t`, outside `l`, in increasing order.
pub open spec fn common_upto(a: Seq<Seq<usize>>, l: Seq<usize>, t: int) -> Seq<usize>
    decreases t,
{
    if t <= 0 {
        Seq::empty()
    } else {
        common_upto(a, l, t - 1) + if shared_neighbour(a, l, (t - 1) as usize) {
            seq![(t - 1) as usize]
        } else {
            Seq::<usize>::empty()
        }
    }
}

/// The common neighbours of `l` outside `l`, in increasing order.
pub open spec fn common_neighbours(a: Seq<Seq<usize>>, l: Seq<usize>) -> Seq<usize> {
    common_upto(a, l, a.len() as int)
}

/// The searched property of a candidate: pairwise adjacent (for K5), or
/// with at least three common neighbours (for the left side of a K3,3).
pub open spec fn target_ok(a: Seq<Seq<usize>>, w: Seq<usize>, clique: bool) -> bool {
    if clique {
        is_clique(a, w)
    } else {
        common_neighbours(a, w).len() >= 3
    }
}

/// `w` is a candidate of `k` increasing vertices that starts with `p` and
/// has the searched property.
pub open spec fn choice(a: Seq<Seq<usize>>, p: Seq<usize>, w: Seq<usize>, k: nat, clique: bool) -> bool {
    &&& w.len() == k
    &&& increasing(w)
    &&& in_range(a, w)
    &&& target_ok(a, w, clique)
    &&& p.len() <= k
    &&& forall|q: int| 0 <= q < p.len() ==> w[q] == p[q]
}

/// `w` is the lexicographically least such candidate.
pub open spec fn least_choice(a: Seq<Seq<usize>>, p: Seq<usize>, w: Seq<usize>, k: nat, clique: bool) -> bool {
    &&& choice(a, p, w, k, clique)
    &&& forall|w2: Seq<usize>| #[trigger] choice(a, p, w2, k, clique) ==> !lex_lt(w2, w)
}

/// Five distinct vertices of the graph, in increasing order, pairwise adjacent.
pub open spec fn is_k5(a: Seq<Seq<usize>>, v: Seq<usize>) -> bool {
    choice(a, Seq::empty(), v, 5, true)
}

/// The graph has K5 as a subgraph.
pub open spec fn has_k5(a: Seq<Seq<usize>>) -> bool {
    exists|v: Seq<usize>| #[trigger] is_k5(a, v)
}

/// Two disjoint triples of vertices of the graph, each in increasing order,
/// with every left vertex adjacent to every right vertex.
pub open spec fn is_k33(a: Seq<Seq<usize>>, l: Seq<usize>, r: Seq<usize>) -> bool {
    &&& l.len() == 3
    &&& r.len() == 3
    &&& increasing(l)
    &&& increasing(r)
    &&& in_range(a, l)
    &&& in_range(a, r)
    &&& forall|i: int, j: int| 0 <= i < 3 && 0 <= j < 3 ==> l[i] != r[j]
    &&& forall|i: int, j: int| 0 <= i < 3 && 0 <= j < 3 ==> a[l[i] as int].contains(r[j])
}

/// The graph has K3,3 as a subgraph.
pub open spec fn has_k33(a: Seq<Seq<usize>>) -> bool {
    exists|l: Seq<usize>, r: Seq<usize>| #[trigger] is_k33(a, l, r)
}

/// What `detect_kuratowski` reports: the least K5 if there is one, else the
/// least left side of a K3,3 with its three least common neighbours, else
/// nothing.
pub open spec fn obstruction_matches(o: KuratowskiObstruction, a: Seq<Seq<usize>>) -> bool {
    if has_k5(a) {
        o matches KuratowskiObstruction::K5(v) && least_choice(a, Seq::empty(), v@, 5, true)
    } else if has_k33(a) {
        o matches KuratowskiObstruction::K33(l, r) && least_choice(a, Seq::empty(), l@, 3, false) && r@
            == common_neighbours(a, l@).take(3)
    } else {
        o matches KuratowskiObstruction::NoObstruction
    }
}

proof fn lemma_lex_asym(x: Seq<usize>, y: Seq<usize>)
    requires
        lex_lt(x, y),
    ensures
        !lex_lt(y, x),
{
    let t = choose|t: int| #[trigger] lex_at(x, y, t);
    if lex_lt(y, x) {
        let s = choose|s: int| #[trigger] lex_at(y, x, s);
        if s < t {
            assert(x[s] == y[s]);
        } else if t < s {
            assert(y[t] == x[t]);
        }
    }
}

proof fn lemma_common_upto(a: Seq<Seq<usize>>, l: Seq<usize>, t: int, v: usize)
    requires
        0 <= t <= usize::MAX + 1,
    ensures
        common_upto(a, l, t).contains(v) <==> ((v as int) < t && shared_neighbour(a, l, v)),
        increasing(common_upto(a, l, t)),
        forall|i: int| 0 <= i < common_upto(a, l, t).len() ==> (#[trigger] common_upto(a, l, t)[i] as int) < t,
    decreases t,
{
    if t > 0 {
        lemma_common_upto(a, l, t - 1, v);
        let p = common_upto(a, l, t - 1);
        let c = common_upto(a, l, t);
        if shared_neighbour(a, l, (t - 1) as usize) {
            assert(c == p.push((t - 1) as usize));
            assert(c[p.len() as int] == (t - 1) as usize);
            if c.contains(v) && v as int != t - 1 {
                let i = choose|i: int| 0 <= i < c.len() && c[i] == v;
                assert(i < p.len());
                assert(p[i] == c[i]);
            }
            if p.contains(v) {
                let i = choose|i: int| 0 <= i < p.len() && p[i] == v;
                assert(c[i] == v);
            }
            assert forall|i: int| 0 <= i < c.len() implies (#[trigger] c[i] as int) < t by {
                if i < p.len() {
                    assert(c[i] == p[i]);
                }
            }
            assert forall|i: int, j: int| 0 <= i < j < c.len() implies c[i] < c[j] by {
                assert(c[i] == p[i]);
                assert((p[i] as int) < t - 1);
                if j < p.len() {
                    assert(c[j] == p[j]);
                }
            }
        } else {
            assert(c == p);
        }
    }
}

/// A K3,3 subgraph exists exactly when some increasing triple has three
/// common neighbours outside it; those neighbours, least first, complete it.
proof fn lemma_k33_choice(a: Seq<Seq<usize>>)
    requires
        a.len() <= usize::MAX,
    ensures
        has_k33(a) <==> exists|w: Seq<usize>| #[trigger] choice(a, Seq::empty(), w, 3, false),
        forall|w: Seq<usize>| #[trigger]
            choice(a, Seq::empty(), w, 3, false) ==> is_k33(a, w, common_neighbours(a, w).take(3)),
{
    assert forall|w: Seq<usize>| #[trigger] choice(a, Seq::empty(), w, 3, false) implies is_k33(
        a,
        w,
        common_neighbours(a, w).take(3),
    ) by {
        let c = common_neighbours(a, w);
        let r = c.take(3);
        assert forall|j: int| 0 <= j < 3 implies shared_neighbour(a, w, #[trigger] r[j]) && (r[j] as int) < a.len() by {
            assert(r[j] == c[j]);
            lemma_common_upto(a, w, a.len() as int, c[j]);
            assert(c.contains(c[j]));
        }
        lemma_common_upto(a, w, a.len() as int, 0);
        assert forall|i: int, j: int| 0 <= i < 3 && 0 <= j < 3 implies w[i] != r[j] by {
            assert(shared_neighbour(a, w, r[j]));
            if w[i] == r[j] {
                assert(w.contains(r[j]));
            }
        }
        assert forall|i: int, j: int| 0 <= i < 3 && 0 <= j < 3 implies a[w[i] as int].contains(r[j]) by {
            assert(shared_neighbour(a, w, r[j]));
        }
        assert forall|i: int, j: int| 0 <= i < j < 3 implies r[i] < r[j] by {
            assert(r[i] == c[i] && r[j] == c[j]);
        }
    }
    if has_k33(a) {
        let (l, r) = choose|l: Seq<usize>, r: Seq<usize>| #[trigger] is_k33(a, l, r);
        let c = common_neighbours(a, l);
        assert forall|j: int| 0 <= j < 3 implies c.contains(#[trigger] r[j]) by {
            lemma_common_upto(a, l, a.len() as int, r[j]);
            assert(!l.contains(r[j])) by {
                if l.contains(r[j]) {
                    let i = choose|i: int| 0 <= i < l.len() && l[i] == r[j];
                }
            }
        }
        lemma_common_upto(a, l, a.len() as int, 0);
        assert(c.len() >= 3) by {
            let i0 = choose|i: int| 0 <= i < c.len() && c[i] == r[0];
            let i1 = choose|i: int| 0 <= i < c.len() && c[i] == r[1];
            let i2 = choose|i: int| 0 <= i < c.len() && c[i] == r[2];
            assert(i0 < i1) by {
                if i1 <= i0 {
                    if i1 < i0 {
                        assert(c[i1] < c[i0]);
                    }
                }
            }
            assert(i1 < i2) by {
                if i2 <= i1 {
                    if i2 < i1 {
                        assert(c[i2] < c[i1]);
                    }
                }
            }
        }
        assert(choice(a, Seq::empty(), l, 3, false));
    }
    if exists|w: Seq<usize>| #[trigger] choice(a, Seq::empty(), w, 3, false) {
        let w = choose|w: Seq<usize>| #[trigger] choice(a, Seq::empty(), w, 3, false);
        assert(is_k33(a, w, common_neighbours(a, w).take(3)));
    }
}

/// The common neighbours of `l`, outside `l`, in increasing order.
fn common_neighbours_of(graph: &Graph, l: &Vec<usize>) -> (r: Vec<usize>)
    requires
        graph.wf(),
        in_range(graph@, l@),
    ensures
        r@ == common_neighbours(graph@, l@),
{
    let ghost a = graph@;
    let n = graph.vertex_count();
    let mut r: Vec<usize> = Vec::new();
    let mut v: usize = 0;
    while v < n
        invariant
            graph.wf(),
            a == graph@,
            n == a.len(),
            in_range(a, l@),
            v <= n,
            r@ == common_upto(a, l@, v as int),
        decreases n - v,
    {
        let mut ok = true;
        let mut q: usize = 0;
        while q < l.len()
            invariant
                graph.wf(),
                a == graph@,
                n == a.len(),
                in_range(a, l@),
                v < n,
                q <= l@.len(),
                ok == forall|x: int| 0 <= x < q ==> l@[x] != v && a[l@[x] as int].contains(v),
            decreases l@.len() - q,
        {
            assert((l@[q as int] as int) < a.len());
            if l[q] == v || !graph.has_edge(l[q], v) {
                ok = false;
            }
            q = q + 1;
        }
        proof {
            assert(ok == shared_neighbour(a, l@, v)) by {
                if !ok {
                    let x = choose|x: int| 0 <= x < l@.len() && !(l@[x] != v && a[l@[x] as int].contains(v));
                    if l@[x] == v {
                        assert(l@.contains(v));
                    }
                }
                if ok && l@.contains(v) {
                    let x = choose|x: int| 0 <= x < l@.len() && l@[x] == v;
                }
            }
        }
        if ok {
            r.push(v);
        }
        v = v + 1;
    }
    r
}

/// The lexicographically least candidate of `k` increasing vertices that
/// starts with `prefix` and has the searched property, if any.
fn search(graph: &Graph, prefix: &mut Vec<usize>, depth: usize, k: usize, clique: bool) -> (r: Option<Vec<usize>>)
    requires
        graph.wf(),
        depth == old(prefix)@.len(),
        old(prefix)@.len() <= k,
        increasing(old(prefix)@),
        in_range(graph@, old(prefix)@),
    ensures
        final(prefix)@ == old(prefix)@,
        r matches Some(w) ==> least_choice(graph@, old(prefix)@, w@, k as nat, clique),
        r is None ==> forall|w: Seq<usize>| !#[trigger] choice(graph@, old(prefix)@, w, k as nat, clique),
    decreases k - depth,
{
    let ghost a = graph@;
    let ghost p0 = prefix@;
    let m = prefix.len();
    if m == k {
        let ok = if clique {
            is_complete(graph, prefix)
        } else {
            common_neighbours_of(graph, prefix).len() >= 3
        };
        proof {
            assert forall|w: Seq<usize>| #[trigger] choice(a, p0, w, k as nat, clique) implies w == p0 by {
                assert(w =~= p0);
            }
        }
        if ok {
            let w = copy_list(prefix);
            proof {
                assert(choice(a, p0, p0, k as nat, clique));
                assert forall|w2: Seq<usize>| #[trigger] choice(a, p0, w2, k as nat, clique) implies !lex_lt(w2, p0) by {
                    assert(w2 == p0);
                    if lex_lt(p0, p0) {
                        lemma_lex_asym(p0, p0);
                    }
                }
            }
            return Some(w);
        }
        return None;
    }
    let n = graph.vertex_count();
    let start: usize = if m == 0 {
        0
    } else {
        prefix[m - 1] + 1
    };
    let mut v: usize = start;
    while v < n
        invariant
            graph.wf(),
            a == graph@,
            n == a.len(),
            prefix@ == p0,
            p0 == old(prefix)@,
            m == p0.len(),
            depth == m,
            m < k,
            increasing(p0),
            in_range(a, p0),
            m > 0 ==> v > p0[m - 1],
            forall|w: Seq<usize>| #[trigger] choice(a, p0, w, k as nat, clique) ==> w[m as int] >= v,
        decreases n - v,
    {
        prefix.push(v);
        let ghost p1 = prefix@;
        proof {
            assert(p1 == p0.push(v));
            assert forall|i: int, j: int| 0 <= i < j < p1.len() implies p1[i] < p1[j] by {
                if j < m {
                    assert(p1[i] == p0[i] && p1[j] == p0[j]);
                } else {
                    assert(p1[i] == p0[i]);
                }
            }
            assert forall|i: int| 0 <= i < p1.len() implies (#[trigger] p1[i] as int) < a.len() by {
                if i < m {
                    assert(p1[i] == p0[i]);
                }
            }
        }
        assert(prefix@.len() == m + 1);
        let r = search(graph, prefix, depth + 1, k, clique);
        prefix.pop();
        proof {
            assert(prefix@ =~= p0);
        }
        match r {
            Some(w) => {
                proof {
                    assert forall|w2: Seq<usize>| #[trigger] choice(a, p0, w2, k as nat, clique) implies !lex_lt(w2, w@) by {
                        if w2[m as int] == v {
                            assert(choice(a, p1, w2, k as nat, clique));
                        } else {
                            assert(lex_at(w@, w2, m as int));
                            lemma_lex_asym(w@, w2);
                        }
                    }
                    assert(choice(a, p0, w@, k as nat, clique));
                }
                return Some(w);
            },
            None => {
                proof {
                    assert forall|w2: Seq<usize>| #[trigger] choice(a, p0, w2, k as nat, clique) implies w2[m as int]
                        >= v + 1 by {
                        if w2[m as int] == v {
                            assert(choice(a, p1, w2, k as nat, clique));
                        }
                    }
                }
            },
        }
        v = v + 1;
    }
    proof {
        assert forall|w: Seq<usize>| !#[trigger] choice(a, p0, w, k as nat, clique) by {
            if choice(a, p0, w, k as nat, clique) {
                assert((w[m as int] as int) < a.len());
            }
        }
    }
    None
}

/// The listed vertices are pairwise adjacent.
fn is_complete(graph: &Graph, vertices: &Vec<usize>) -> (r: bool)
    requires
        graph.wf(),
        forall|i: int| 0 <= i < vertices@.len() ==> vertices@[i] < graph@.len(),
    ensures
        r == is_clique(graph@, vertices@),
{
    let ghost a = graph@;
    let mut i: usize = 0;
    while i < vertices.len()
        invariant
            graph.wf(),
            a == graph@,
            forall|x: int| 0 <= x < vertices@.len() ==> vertices@[x] < a.len(),
            i <= vertices@.len(),
            forall|x: int, y: int|
                0 <= x < i && x < y < vertices@.len() ==> a[vertices@[x] as int].contains(vertices@[y]),
        decreases vertices@.len() - i,
    {
        let mut j: usize = i + 1;
        while j < vertices.len()
            invariant
                graph.wf(),
                a == graph@,
                forall|x: int| 0 <= x < vertices@.len() ==> vertices@[x] < a.len(),
                i < vertices@.len(),
                i + 1 <= j <= vertices@.len(),
                forall|x: int, y: int|
                    0 <= x < i && x < y < vertices@.len() ==> a[vertices@[x] as int].contains(vertices@[y]),
                forall|y: int| i < y < j ==> a[vertices@[i as int] as int].contains(vertices@[y]),
            decreases vertices@.len() - j,
        {
            if !graph.has_edge(vertices[i], vertices[j]) {
                return false;
            }
            j = j + 1;
        }
        i = i + 1;
    }
    true
}

/// Every obstruction reported is real. A K5 names five distinct vertices of
/// the graph, in increasing order and pairwise adjacent. A K3,3 names two
/// disjoint sides of three vertices each, in increasing order, with each
/// left vertex adjacent to each right one.
pub proof fn lemma_obstruction_sound(o: KuratowskiObstruction, a: Seq<Seq<usize>>)
    requires
        a.len() <= usize::MAX,
        obstruction_matches(o, a),
    ensures
        o matches KuratowskiObstruction::K5(v) ==> is_k5(a, v@),
        o matches KuratowskiObstruction::K33(l, r) ==> is_k33(a, l@, r@),
{
    lemma_k33_choice(a);
}

/// Detect Kuratowski subgraph obstructions.
///
/// By Kuratowski's theorem, a graph is non-planar if and only if it
/// contains a subdivision of K₅ or K₃,₃. `found` tells exactly whether the
/// graph is non-planar (decided by the search for a planar rotation
/// system). The obstruction named is K₅ or K₃,₃ itself when the graph has
/// one as a subgraph, searched in a graph of any size; a non-planar graph
/// that holds only a subdivision of one gets `NoObstruction`.
pub fn detect_kuratowski(graph: &Graph) -> (r: KuratowskiResult)
    requires
        graph.wf(),
    ensures
        r.found == !planar(graph@),
        obstruction_matches(r.obstruction, graph@),
        r.obstruction is NoObstruction <==> !(has_k5(graph@) || has_k33(graph@)),
{
    let found = planar_rotation_of(graph).is_none();
    // Check for K₅
    if let Some(vertices) = find_k5(graph) {
        return KuratowskiResult { found, obstruction: KuratowskiObstruction::K5(vertices) };
    }
    // Check for K₃,₃
    if let Some((left, right)) = find_k33(graph) {
        return KuratowskiResult { found, obstruction: KuratowskiObstruction::K33(left, right) };
    }
    KuratowskiResult { found, obstruction: KuratowskiObstruction::NoObstruction }
}

fn find_k5(graph: &Graph) -> (r: Option<Vec<usize>>)
    requires
        graph.wf(),
    ensures
        r matches Some(v) ==> least_choice(graph@, Seq::empty(), v@, 5, true),
        r is None <==> !has_k5(graph@),
{
    let mut prefix: Vec<usize> = Vec::new();
    let r = search(graph, &mut prefix, 0, 5, true);
    proof {
        if r is Some {
            assert(is_k5(graph@, r->0@));
        }
        if r is None && has_k5(graph@) {
            let v = choose|v: Seq<usize>| #[trigger] is_k5(graph@, v);
            assert(choice(graph@, Seq::empty(), v, 5, true));
        }
    }
    r
}

fn find_k33(graph: &Graph) -> (r: Option<(Vec<usize>, Vec<usize>)>)
    requires
        graph.wf(),
    ensures
        r matches Some((l, rr)) ==> least_choice(graph@, Seq::empty(), l@, 3, false) && rr@
            == common_neighbours(graph@, l@).take(3),
        r is None <==> !has_k33(graph@),
{
    let ghost a = graph@;
    proof {
        lemma_k33_choice(a);
    }
    let mut prefix: Vec<usize> = Vec::new();
    match search(graph, &mut prefix, 0, 3, false) {
        Some(left) => {
            let common = common_neighbours_of(graph, &left);
            let right = vec![common[0], common[1], common[2]];
            assert(right@ =~= common@.take(3));
            Some((left, right))
        },
        None => {
            proof {
                if has_k33(a) {
                    let w = choose|w: Seq<usize>| #[trigger] choice(a, Seq::empty(), w, 3, false);
                    assert(choice(a, Seq::<usize>::empty(), w, 3, false));
                }
            }
            None
        },
    }
}

/// Check if the graph contains K₅ as a subgraph (not subdivision).
pub fn contains_k5(graph: &Graph) -> (r: bool)
    requires
        graph.wf(),
    ensures
        r == has_k5(graph@),
{
    find_k5(graph).is_some()
}

/// Check if the graph contains K₃,₃ as a subgraph.
pub fn contains_k33(graph: &Graph) -> (r: bool)
    requires
        graph.wf(),
    ensures
        r == has_k33(graph@),
{
    find_k33(graph).is_some()
}

/// Get the minimum Kuratowski obstruction (fewest vertices): a K₅ whenever
/// there is one.
pub fn minimal_obstruction(graph: &Graph) -> (r: KuratowskiObstruction)
    requires
        graph.wf(),
    ensures
        obstruction_matches(r, graph@),
        has_k5(graph@) ==> r is K5,
{
    let result = detect_kuratowski(graph);
    result.obstruction
}

} // verus!
