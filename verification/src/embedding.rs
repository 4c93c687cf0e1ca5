//! Planar embedding construction.
//!
//! Constructs a planar embedding (combinatorial embedding) for planar graphs,
//! specifying the cyclic order of edges around each vertex.

use vstd::prelude::*;
use vstd::arithmetic::div_mod::{lemma_mod_add_multiples_vanish, lemma_mod_self_0, lemma_small_mod};
use std::collections::HashSet;
use crate::{list_contains, Graph};
use crate::face_walks::{faces_are_orbits, lemma_faces_are_orbits, rotation_wf};
use crate::rotation::{first_planar_rotation, lemma_rotation_valid, planar, planar_rotation, planar_rotation_of};

verus! {

broadcast use vstd::std_specs::hash::group_hash_axioms;

/// A planar embedding: for each vertex, the cyclic order of neighbors.
pub type PlanarEmbedding = Vec<Vec<usize>>;

/// The lists of an embedding, as sequences.
pub open spec fn emb_view(e: Seq<Vec<usize>>) -> Seq<Seq<usize>> {
    e.map_values(|l: Vec<usize>| l@)
}

/// Every entry of every list names a vertex.
pub open spec fn entries_in_range(e: Seq<Seq<usize>>) -> bool {
    forall|u: int, i: int| 0 <= u < e.len() && 0 <= i < e[u].len() ==> (#[trigger] e[u][i]) < e.len()
}

/// Every entry names a vertex whose list names the entry's owner back.
pub open spec fn valid_embedding_spec(e: Seq<Seq<usize>>) -> bool {
    forall|u: int, i: int|
        0 <= u < e.len() && 0 <= i < e[u].len() ==> (#[trigger] e[u][i]) < e.len() && e[e[u][i] as int].contains(
            u as usize,
        )
}

/// A copy of a list of vertices.
pub(crate) fn copy_list(l: &Vec<usize>) -> (r: Vec<usize>)
    ensures
        r@ == l@,
{
    let mut r: Vec<usize> = Vec::new();
    let mut i: usize = 0;
    while i < l.len()
        invariant
            i <= l@.len(),
            r@ == l@.take(i as int),
        decreases l@.len() - i,
    {
        r.push(l[i]);
        assert(l@.take(i + 1) =~= l@.take(i as int).push(l@[i as int]));
        i = i + 1;
    }
    assert(l@.take(i as int) =~= l@);
    r
}

/// A copy of adjacency lists.
pub(crate) fn copy_lists(lists: &[Vec<usize>]) -> (r: Vec<Vec<usize>>)
    ensures
        emb_view(r@) == emb_view(lists@),
{
    let mut r: Vec<Vec<usize>> = Vec::new();
    let mut i: usize = 0;
    while i < lists.len()
        invariant
            i <= lists@.len(),
            emb_view(r@) == emb_view(lists@.take(i as int)),
        decreases lists@.len() - i,
    {
        r.push(copy_list(&lists[i]));
        assert(emb_view(lists@.take(i + 1)) =~= emb_view(lists@.take(i as int)).push(lists@[i as int]@));
        assert(emb_view(r@) =~= emb_view(lists@.take(i + 1)));
        i = i + 1;
    }
    assert(lists@.take(i as int) =~= lists@);
    r
}

/// Compute a planar embedding.
///
/// For each vertex, returns its neighbours (other than itself) in a cyclic
/// order that gives a planar drawing: the first planar rotation system,
/// with each cyclic order written from the least neighbour. Returns `None`
/// if the graph is not planar.
pub fn compute_embedding(graph: &Graph) -> (r: Option<PlanarEmbedding>)
    requires
        graph.wf(),
    ensures
        r is None <==> !planar(graph@),
        r matches Some(e) ==> emb_view(e@) == first_planar_rotation(graph@),
        r matches Some(e) ==> planar_rotation(graph@, emb_view(e@)) && valid_embedding_spec(emb_view(e@)),
{
    let r = planar_rotation_of(graph);
    proof {
        if r is Some {
            lemma_rotation_valid(graph@, emb_view(r->0@));
        }
    }
    r
}

/// Get the rotation system (same as embedding, but with explicit next/prev pointers).
pub fn rotation_system(embedding: &PlanarEmbedding) -> (r: Vec<Vec<(usize, usize, usize)>>)
    ensures
        r@.len() == embedding@.len(),
        forall|v: int| 0 <= v < r@.len() ==> (#[trigger] r@[v])@.len() == embedding@[v]@.len(),
        forall|v: int, i: int|
            0 <= v < r@.len() && 0 <= i < r@[v]@.len() ==> #[trigger] r@[v]@[i] == rotation_entry(
                embedding@[v]@,
                i,
            ),        forall|v: int, i: int|
            0 <= v < r@.len() && 0 <= i < r@[v]@.len() ==> #[trigger] r@[v]@[i] == (
                embedding@[v]@[i],
                embedding@[v]@[(i + embedding@[v]@.len() - 1) % (embedding@[v]@.len() as int)],
                embedding@[v]@[(i + 1) % (embedding@[v]@.len() as int)],
            ),
{
    let mut r: Vec<Vec<(usize, usize, usize)>> = Vec::new();
    let mut v: usize = 0;
    while v < embedding.len()
        invariant
            v <= embedding@.len(),
            r@.len() == v,
            forall|x: int| 0 <= x < v ==> (#[trigger] r@[x])@.len() == embedding@[x]@.len(),
            forall|x: int, i: int|
                0 <= x < v && 0 <= i < r@[x]@.len() ==> #[trigger] r@[x]@[i] == rotation_entry(
                    embedding@[x]@,
                    i,
                ),
        decreases embedding@.len() - v,
    {
        let neighbors = &embedding[v];
        let n = neighbors.len();
        let mut triples: Vec<(usize, usize, usize)> = Vec::new();
        let mut i: usize = 0;
        while i < n
            invariant
                n == neighbors@.len(),
                neighbors@ == embedding@[v as int]@,
                i <= n,
                triples@.len() == i,
                forall|k: int| 0 <= k < i ==> #[trigger] triples@[k] == rotation_entry(neighbors@, k),
            decreases n - i,
        {
            let prev = if i == 0 { n - 1 } else { i - 1 };
            let next = if i == n - 1 { 0 } else { i + 1 };
            triples.push((neighbors[i], neighbors[prev], neighbors[next]));
            i = i + 1;
        }
        r.push(triples);
        v = v + 1;
    }
    proof {
        assert forall|v: int, i: int|
            0 <= v < r@.len() && 0 <= i < r@[v]@.len() implies #[trigger] r@[v]@[i] == (
                embedding@[v]@[i],
                embedding@[v]@[(i + embedding@[v]@.len() - 1) % (embedding@[v]@.len() as int)],
                embedding@[v]@[(i + 1) % (embedding@[v]@.len() as int)],
            ) by {
            lemma_rotation_entry(embedding@[v]@, i);
        }
    }
    r
}

/// The entry at position `i` of a rotation: the neighbour, the one before
/// it and the one after it, cyclically.
pub open spec fn rotation_entry(l: Seq<usize>, i: int) -> (usize, usize, usize) {
    let n = l.len() as int;
    let prev = if i == 0 { n - 1 } else { i - 1 };
    let next = if i == n - 1 { 0 } else { i + 1 };
    (l[i], l[prev], l[next])
}

/// Each entry of the rotation system holds the neighbour at its position,
/// the one before it and the one after it, cyclically.
pub proof fn lemma_rotation_entry(l: Seq<usize>, i: int)
    requires
        0 <= i < l.len(),
    ensures
        rotation_entry(l, i) == (
            l[i],
            l[(i + l.len() - 1) % (l.len() as int)],
            l[(i + 1) % (l.len() as int)],
        ),
{
    let m = l.len() as int;
    if i + 1 < m {
        lemma_small_mod((i + 1) as nat, m as nat);
    } else {
        lemma_mod_self_0(m);
    }
    if i == 0 {
        lemma_small_mod((m - 1) as nat, m as nat);
    } else {
        lemma_mod_add_multiples_vanish(i - 1, m);
        lemma_small_mod((i - 1) as nat, m as nat);
    }
}

/// Check if an embedding is valid (all edges are symmetric).
pub fn is_valid_embedding(embedding: &PlanarEmbedding) -> (r: bool)
    ensures
        r == valid_embedding_spec(emb_view(embedding@)),
{
    let ghost e = emb_view(embedding@);
    let mut u: usize = 0;
    while u < embedding.len()
        invariant
            e == emb_view(embedding@),
            u <= e.len(),
            forall|x: int, i: int|
                0 <= x < u && 0 <= i < e[x].len() ==> (#[trigger] e[x][i]) < e.len() && e[e[x][i] as int].contains(
                    x as usize,
                ),
        decreases e.len() - u,
    {
        let mut k: usize = 0;
        while k < embedding[u].len()
            invariant
                e == emb_view(embedding@),
                u < e.len(),
                k <= e[u as int].len(),
                forall|x: int, i: int|
                    0 <= x < u && 0 <= i < e[x].len() ==> (#[trigger] e[x][i]) < e.len() && e[e[x][i] as int].contains(
                        x as usize,
                    ),
                forall|i: int|
                    0 <= i < k ==> (#[trigger] e[u as int][i]) < e.len() && e[e[u as int][i] as int].contains(
                        u as usize,
                    ),
            decreases e[u as int].len() - k,
        {
            assert(embedding@[u as int]@ == e[u as int]);
            let v = embedding[u][k];
            if v >= embedding.len() {
                return false;
            }
            assert(embedding@[v as int]@ == e[v as int]);
            if !list_contains(embedding[v].as_slice(), u) {
                return false;
            }
            k = k + 1;
        }
        u = u + 1;
    }
    true
}

/// The first position of `x` in `l`.
pub open spec fn first_index(l: Seq<usize>, x: usize) -> int {
    choose|i: int| 0 <= i < l.len() && l[i] == x && forall|j: int| 0 <= j < i ==> l[j] != x
}

/// The dart after `(v, w)`: at `w`, the neighbour after `v` in `w`'s cyclic order.
pub open spec fn next_dart(e: Seq<Seq<usize>>, v: usize, w: usize) -> (usize, usize) {
    let l = e[w as int];
    (w, l[(first_index(l, v) + 1) % (l.len() as int)])
}

/// The longest face boundary accepted before giving up.
pub open spec fn face_limit(n: nat) -> int {
    (4 * n + 4) as int
}

#[verifier::opaque]
/// Walking darts from `(v, w)` while tracing the face that starts with
/// dart `(start, ns)`, with darts `used` already taken and `face` the
/// vertices so far: the darts taken and the face at the end, or `None` when
/// a dart has no successor or the face grows past the limit.
pub open spec fn trace_face(
    e: Seq<Seq<usize>>,
    start: usize,
    ns: usize,
    used: Set<(usize, usize)>,
    face: Seq<usize>,
    v: usize,
    w: usize,
) -> Option<(Set<(usize, usize)>, Seq<usize>)>
    decreases face_limit(e.len()) + 1 - face.len(),
{
    if used.contains((v, w)) {
        Some((used, face))
    } else {
        let used1 = used.insert((v, w));
        let face1 = face.push(v);
        if !e[w as int].contains(v) {
            None
        } else {
            let (v2, w2) = next_dart(e, v, w);
            if v2 == start && w2 == ns {
                Some((used1, face1))
            } else if face1.len() > face_limit(e.len()) {
                None
            } else {
                trace_face(e, start, ns, used1, face1, v2, w2)
            }
        }
    }
}

#[verifier::opaque]
/// Tracing the face that starts with dart `(start, ns)` from dart `(v, w)`
/// on, as `trace_face` does, comes to a dart `(v, w)` not yet taken whose
/// `w` is not a vertex, so that the list of `w` cannot be read.
pub open spec fn trace_escapes(
    e: Seq<Seq<usize>>,
    start: usize,
    ns: usize,
    used: Set<(usize, usize)>,
    face: Seq<usize>,
    v: usize,
    w: usize,
) -> bool
    decreases face_limit(e.len()) + 1 - face.len(),
{
    if used.contains((v, w)) {
        false
    } else if (w as int) >= e.len() {
        true
    } else {
        let used1 = used.insert((v, w));
        let face1 = face.push(v);
        if !e[w as int].contains(v) {
            false
        } else {
            let (v2, w2) = next_dart(e, v, w);
            if v2 == start && w2 == ns {
                false
            } else if face1.len() > face_limit(e.len()) {
                false
            } else {
                trace_escapes(e, start, ns, used1, face1, v2, w2)
            }
        }
    }
}

pub(crate) proof fn lemma_escape_step(
    e: Seq<Seq<usize>>,
    start: usize,
    ns: usize,
    used: Set<(usize, usize)>,
    face: Seq<usize>,
    v: usize,
    w: usize,
)
    ensures
        trace_escapes(e, start, ns, used, face, v, w) == if used.contains((v, w)) {
            false
        } else if (w as int) >= e.len() {
            true
        } else {
            let used1 = used.insert((v, w));
            let face1 = face.push(v);
            if !e[w as int].contains(v) {
                false
            } else {
                let (v2, w2) = next_dart(e, v, w);
                if v2 == start && w2 == ns {
                    false
                } else if face1.len() > face_limit(e.len()) {
                    false
                } else {
                    trace_escapes(e, start, ns, used1, face1, v2, w2)
                }
            }
        },
{
    reveal(trace_escapes);
}

/// The darts `(s, w)` of vertices `s` below `k`, by vertex and then by list order.
pub open spec fn darts_upto(e: Seq<Seq<usize>>, k: int) -> Seq<(usize, usize)>
    decreases k,
{
    if k <= 0 {
        Seq::empty()
    } else {
        darts_upto(e, k - 1) + e[k - 1].map_values(|w: usize| ((k - 1) as usize, w))
    }
}

/// All darts, by vertex and then by list order.
pub open spec fn all_darts(e: Seq<Seq<usize>>) -> Seq<(usize, usize)> {
    darts_upto(e, e.len() as int)
}

#[verifier::opaque]
/// Tracing a face from every dart not yet taken, from dart `k` on, keeping
/// the faces of at least two vertices.
pub open spec fn collect_faces(
    e: Seq<Seq<usize>>,
    k: int,
    used: Set<(usize, usize)>,
    faces: Seq<Seq<usize>>,
) -> Option<Seq<Seq<usize>>>
    decreases all_darts(e).len() - k,
{
    if k < 0 || k >= all_darts(e).len() {
        Some(faces)
    } else {
        let (s, w) = all_darts(e)[k];
        if used.contains((s, w)) {
            collect_faces(e, k + 1, used, faces)
        } else {
            match trace_face(e, s, w, used, Seq::empty(), s, w) {
                None => None,
                Some((used2, f)) => collect_faces(
                    e,
                    k + 1,
                    used2,
                    if f.len() >= 2 {
                        faces.push(f)
                    } else {
                        faces
                    },
                ),
            }
        }
    }
}

#[verifier::opaque]
/// Collecting faces as `collect_faces` does, from dart `k` on, some trace
/// escapes the vertices.
pub open spec fn collect_escapes(
    e: Seq<Seq<usize>>,
    k: int,
    used: Set<(usize, usize)>,
    faces: Seq<Seq<usize>>,
) -> bool
    decreases all_darts(e).len() - k,
{
    if k < 0 || k >= all_darts(e).len() {
        false
    } else {
        let (s, w) = all_darts(e)[k];
        if used.contains((s, w)) {
            collect_escapes(e, k + 1, used, faces)
        } else if trace_escapes(e, s, w, used, Seq::empty(), s, w) {
            true
        } else {
            match trace_face(e, s, w, used, Seq::empty(), s, w) {
                None => false,
                Some((used2, f)) => collect_escapes(
                    e,
                    k + 1,
                    used2,
                    if f.len() >= 2 {
                        faces.push(f)
                    } else {
                        faces
                    },
                ),
            }
        }
    }
}

pub(crate) proof fn lemma_collect_escape_step(
    e: Seq<Seq<usize>>,
    k: int,
    used: Set<(usize, usize)>,
    faces: Seq<Seq<usize>>,
)
    ensures
        collect_escapes(e, k, used, faces) == if k < 0 || k >= all_darts(e).len() {
            false
        } else {
            let (s, w) = all_darts(e)[k];
            if used.contains((s, w)) {
                collect_escapes(e, k + 1, used, faces)
            } else if trace_escapes(e, s, w, used, Seq::empty(), s, w) {
                true
            } else {
                match trace_face(e, s, w, used, Seq::empty(), s, w) {
                    None => false,
                    Some((used2, f)) => collect_escapes(
                        e,
                        k + 1,
                        used2,
                        if f.len() >= 2 {
                            faces.push(f)
                        } else {
                            faces
                        },
                    ),
                }
            }
        },
{
    reveal(collect_escapes);
}

/// Tracing the faces of `e` reads the list of a vertex that does not exist.
pub open spec fn faces_escape(e: Seq<Seq<usize>>) -> bool {
    collect_escapes(e, 0, Set::empty(), Seq::empty())
}

/// The faces of an embedding: the boundary walks from every dart in order.
pub open spec fn faces_of(e: Seq<Seq<usize>>) -> Option<Seq<Seq<usize>>> {
    collect_faces(e, 0, Set::empty(), Seq::empty())
}

pub(crate) proof fn lemma_trace_step(
    e: Seq<Seq<usize>>,
    start: usize,
    ns: usize,
    used: Set<(usize, usize)>,
    face: Seq<usize>,
    v: usize,
    w: usize,
)
    ensures
        trace_face(e, start, ns, used, face, v, w) == if used.contains((v, w)) {
            Some((used, face))
        } else {
            let used1 = used.insert((v, w));
            let face1 = face.push(v);
            if !e[w as int].contains(v) {
                None
            } else {
                let (v2, w2) = next_dart(e, v, w);
                if v2 == start && w2 == ns {
                    Some((used1, face1))
                } else if face1.len() > face_limit(e.len()) {
                    None
                } else {
                    trace_face(e, start, ns, used1, face1, v2, w2)
                }
            }
        },
{
    reveal(trace_face);
}

pub(crate) proof fn lemma_collect_step(e: Seq<Seq<usize>>, k: int, used: Set<(usize, usize)>, faces: Seq<Seq<usize>>)
    ensures
        collect_faces(e, k, used, faces) == if k < 0 || k >= all_darts(e).len() {
            Some(faces)
        } else {
            let (s, w) = all_darts(e)[k];
            if used.contains((s, w)) {
                collect_faces(e, k + 1, used, faces)
            } else {
                match trace_face(e, s, w, used, Seq::empty(), s, w) {
                    None => None,
                    Some((used2, f)) => collect_faces(
                        e,
                        k + 1,
                        used2,
                        if f.len() >= 2 {
                            faces.push(f)
                        } else {
                            faces
                        },
                    ),
                }
            }
        },
{
    reveal(collect_faces);
}

pub(crate) proof fn lemma_first_index(l: Seq<usize>, x: usize, i: int)
    requires
        0 <= i < l.len(),
        l[i] == x,
        forall|j: int| 0 <= j < i ==> l[j] != x,
    ensures
        first_index(l, x) == i,
{
    let k = first_index(l, x);
    if k < i {
        assert(l[k] != x);
    } else if k > i {
        assert(l[i] != x);
    }
}

pub(crate) proof fn lemma_darts_upto(e: Seq<Seq<usize>>, k: int, t: int)
    requires
        0 <= k < t <= e.len(),
    ensures
        darts_upto(e, k + 1).len() == darts_upto(e, k).len() + e[k].len(),
        darts_upto(e, k + 1).len() <= darts_upto(e, t).len(),
        forall|i: int|
            0 <= i < e[k].len() ==> darts_upto(e, t)[darts_upto(e, k).len() + i] == ((k as usize), e[k][i]),
    decreases t,
{
    let p = darts_upto(e, k);
    let q = e[k].map_values(|w: usize| (k as usize, w));
    assert(darts_upto(e, k + 1) == p + q);
    if t == k + 1 {
        assert forall|i: int| 0 <= i < e[k].len() implies darts_upto(e, t)[p.len() + i] == ((k as usize), e[k][i]) by {
            assert((p + q)[p.len() + i] == q[i]);
        }
    } else {
        lemma_darts_upto(e, k, t - 1);
        let r = darts_upto(e, t - 1);
        assert(darts_upto(e, t) == r + e[t - 1].map_values(|w: usize| ((t - 1) as usize, w)));
        assert forall|i: int| 0 <= i < e[k].len() implies darts_upto(e, t)[p.len() + i] == ((k as usize), e[k][i]) by {
            assert(darts_upto(e, t)[p.len() + i] == r[p.len() + i]);
        }
    }
}

/// Whether a list of pairs holds `p`.
pub(crate) fn pair_list_contains(l: &Vec<(usize, usize)>, p: (usize, usize)) -> (r: bool)
    ensures
        r == l@.contains(p),
{
    let mut i: usize = 0;
    while i < l.len()
        invariant
            i <= l@.len(),
            forall|j: int| 0 <= j < i ==> l@[j] != p,
        decreases l@.len() - i,
    {
        if l[i].0 == p.0 && l[i].1 == p.1 {
            assert(l@[i as int] == p);
            return true;
        }
        i = i + 1;
    }
    false
}

/// The first position of `x` in `l`, if any.
fn first_position(l: &Vec<usize>, x: usize) -> (r: Option<usize>)
    ensures
        r matches Some(i) ==> i < l@.len() && l@[i as int] == x && forall|j: int| 0 <= j < i ==> l@[j] != x,
        r is None ==> !l@.contains(x),
{
    let mut i: usize = 0;
    while i < l.len()
        invariant
            i <= l@.len(),
            forall|j: int| 0 <= j < i ==> l@[j] != x,
        decreases l@.len() - i,
    {
        if l[i] == x {
            return Some(i);
        }
        i = i + 1;
    }
    None
}

pub(crate) proof fn lemma_push_to_set(s: Seq<(usize, usize)>, x: (usize, usize))
    ensures
        s.push(x).to_set() == s.to_set().insert(x),
{
    assert forall|y: (usize, usize)| s.push(x).to_set().contains(y) == s.to_set().insert(x).contains(y) by {
        crate::paths::lemma_push_contains(s, x, y);
    }
    assert(s.push(x).to_set() =~= s.to_set().insert(x));
}

/// The key of dart `(v, w)` in the set of taken darts: `v` in the high
/// 64 bits, `w` in the low ones.
pub open spec fn key_of(v: usize, w: usize) -> u128 {
    (v * 0x1_0000_0000_0000_0000 + w) as u128
}

/// The darts whose keys are in `h`.
pub open spec fn dart_set(h: Set<u128>) -> Set<(usize, usize)> {
    Set::new(|d: (usize, usize)| h.contains(key_of(d.0, d.1)))
}

proof fn lemma_key_injective(v1: usize, w1: usize, v2: usize, w2: usize)
    requires
        key_of(v1, w1) == key_of(v2, w2),
    ensures
        v1 == v2 && w1 == w2,
{
    let b: int = 0x1_0000_0000_0000_0000;
    assert(v1 * b + w1 < 0x1_0000_0000_0000_0000_0000_0000_0000_0000) by (nonlinear_arith)
        requires
            0 <= v1 < b,
            0 <= w1 < b,
            b == 0x1_0000_0000_0000_0000,
    ;
    assert(v2 * b + w2 < 0x1_0000_0000_0000_0000_0000_0000_0000_0000) by (nonlinear_arith)
        requires
            0 <= v2 < b,
            0 <= w2 < b,
            b == 0x1_0000_0000_0000_0000,
    ;
    assert(v1 * b + w1 == v2 * b + w2);
    assert(v1 == v2 && w1 == w2) by (nonlinear_arith)
        requires
            v1 * b + w1 == v2 * b + w2,
            0 <= w1 < b,
            0 <= w2 < b,
            0 <= v1,
            0 <= v2,
            b > 0,
    ;
}

/// Taking a dart adds its key.
proof fn lemma_dart_insert(h: Set<u128>, v: usize, w: usize)
    ensures
        dart_set(h.insert(key_of(v, w))) == dart_set(h).insert((v, w)),
{
    assert forall|d: (usize, usize)| dart_set(h.insert(key_of(v, w))).contains(d) == dart_set(h).insert((v, w)).contains(d) by {
        if key_of(d.0, d.1) == key_of(v, w) {
            lemma_key_injective(d.0, d.1, v, w);
        }
    }
    assert(dart_set(h.insert(key_of(v, w))) =~= dart_set(h).insert((v, w)));
}

/// The key of dart `(v, w)`.
fn dart_key(v: usize, w: usize) -> (k: u128)
    ensures
        k == key_of(v, w),
{
    assert((v as u128) * 0x1_0000_0000_0000_0000u128 + (w as u128) < 0x1_0000_0000_0000_0000_0000_0000_0000_0000)
        by (nonlinear_arith)
        requires
            v <= usize::MAX,
            w <= usize::MAX,
            usize::MAX < 0x1_0000_0000_0000_0000,
    ;
    (v as u128) * 0x1_0000_0000_0000_0000u128 + (w as u128)
}

/// Trace the face that starts with dart `(start, next_start)`, marking the
/// darts it takes in `used`.
fn trace_one_face(
    embedding: &PlanarEmbedding,
    start: usize,
    next_start: usize,
    used: &mut HashSet<u128>,
) -> (r: Option<Vec<usize>>)
    requires
        start < embedding@.len(),
        !trace_escapes(emb_view(embedding@), start, next_start, dart_set(old(used)@), Seq::empty(), start, next_start),
    ensures
        match trace_face(
            emb_view(embedding@),
            start,
            next_start,
            dart_set(old(used)@),
            Seq::empty(),
            start,
            next_start,
        ) {
            None => r is None,
            Some((u2, f)) => r matches Some(fv) && fv@ == f && dart_set(final(used)@) == u2,
        },
{
    let ghost e = emb_view(embedding@);
    let ghost u0 = dart_set(used@);
    let n = embedding.len();
    let mut face: Vec<usize> = Vec::new();
    let mut v = start;
    let mut w = next_start;
    loop
        invariant_except_break
            trace_face(e, start, next_start, u0, Seq::empty(), start, next_start) == trace_face(
                e,
                start,
                next_start,
                dart_set(used@),
                face@,
                v,
                w,
            ),
            !trace_escapes(e, start, next_start, dart_set(used@), face@, v, w),
            face@.len() <= face_limit(n as nat),
            v < n,
        invariant
            e == emb_view(embedding@),
            n == e.len(),
            u0 == dart_set(old(used)@),
        ensures
            trace_face(e, start, next_start, u0, Seq::empty(), start, next_start) == Some(
                (dart_set(used@), face@),
            ),
        decreases face_limit(n as nat) + 1 - face@.len(),
    {
        proof {
            lemma_trace_step(e, start, next_start, dart_set(used@), face@, v, w);
            lemma_escape_step(e, start, next_start, dart_set(used@), face@, v, w);
        }
        if used.contains(&dart_key(v, w)) {
            break;
        }
        let ghost used_before = used@;
        used.insert(dart_key(v, w));
        face.push(v);
        proof {
            lemma_dart_insert(used_before, v, w);
        }
        // Next edge: at vertex w, the neighbor after v in the cyclic order
        let neighbors = &embedding[w];
        assert(neighbors@ == e[w as int]);
        let pos = first_position(neighbors, v);
        let i = match pos {
            Some(i) => i,
            None => {
                return None;
            },
        };
        proof {
            lemma_first_index(e[w as int], v, i as int);
            assert(e[w as int].contains(v));
        }
        let len = neighbors.len();
        assert(i < len);
        let next_idx = (i + 1) % len;
        let new_w = neighbors[next_idx];
        assert(next_dart(e, v, w) == (w, new_w));
        v = w;
        w = new_w;
        if v == start && w == next_start {
            break;
        }
        if face.len() as u128 > 4 * (n as u128) + 4 {
            return None;
        }
    }
    Some(face)
}

/// Compute the faces of a planar embedding.
///
/// Returns the list of faces, where each face is a list of vertices
/// forming the face boundary in order.
pub fn compute_faces(embedding: &PlanarEmbedding) -> (r: Option<Vec<Vec<usize>>>)
    requires
        !faces_escape(emb_view(embedding@)),
    ensures
        r matches Some(f) ==> faces_of(emb_view(embedding@)) == Some(emb_view(f@)),
        r is None ==> faces_of(emb_view(embedding@)) is None,
        r matches Some(f) ==> (rotation_wf(emb_view(embedding@)) ==> faces_are_orbits(
            emb_view(embedding@),
            emb_view(f@),
        )),
{
    let ghost e = emb_view(embedding@);
    let n = embedding.len();
    if n == 0 {
        assert(all_darts(e).len() == 0);
        proof {
            lemma_collect_step(e, 0, Set::empty(), Seq::empty());
        }
        let r: Vec<Vec<usize>> = Vec::new();
        assert(emb_view(r@) =~= Seq::<Seq<usize>>::empty());
        return Some(r);
    }
    // Track which (vertex, next_vertex) directed edges have been used
    let mut used: HashSet<u128> = HashSet::new();
    let mut faces: Vec<Vec<usize>> = Vec::new();
    let mut start: usize = 0;
    assert(dart_set(used@) =~= Set::<(usize, usize)>::empty());
    assert(emb_view(faces@) =~= Seq::<Seq<usize>>::empty());
    while start < n
        invariant
            e == emb_view(embedding@),
            n == e.len(),
            n > 0,
            start <= n,
            faces_of(e) == collect_faces(e, darts_upto(e, start as int).len() as int, dart_set(used@), emb_view(faces@)),
            !collect_escapes(e, darts_upto(e, start as int).len() as int, dart_set(used@), emb_view(faces@)),
        decreases n - start,
    {
        proof {
            lemma_darts_upto(e, start as int, n as int);
        }
        if embedding[start].len() == 0 {
            assert(embedding@[start as int]@ == e[start as int]);
            start = start + 1;
            continue;
        }
        let mut idx: usize = 0;
        while idx < embedding[start].len()
            invariant
                e == emb_view(embedding@),
                n == e.len(),
                n > 0,
                start < n,
                idx <= e[start as int].len(),
                darts_upto(e, start as int + 1).len() == darts_upto(e, start as int).len() + e[start as int].len(),
                darts_upto(e, start as int + 1).len() <= all_darts(e).len(),
                forall|i: int|
                    0 <= i < e[start as int].len() ==> all_darts(e)[darts_upto(e, start as int).len() + i] == (
                    start, e[start as int][i]),
                faces_of(e) == collect_faces(
                    e,
                    darts_upto(e, start as int).len() + idx,
                    dart_set(used@),
                    emb_view(faces@),
                ),
                !collect_escapes(e, darts_upto(e, start as int).len() + idx, dart_set(used@), emb_view(faces@)),
            decreases e[start as int].len() - idx,
        {
            assert(embedding@[start as int]@ == e[start as int]);
            let next_start = embedding[start][idx];
            let ghost k = darts_upto(e, start as int).len() + idx;
            assert(all_darts(e)[k] == (start, next_start));
            let ghost u0 = dart_set(used@);
            let ghost f0 = emb_view(faces@);
            proof {
                lemma_collect_step(e, k, u0, f0);
                lemma_collect_escape_step(e, k, u0, f0);
            }
            if used.contains(&dart_key(start, next_start)) {
                idx = idx + 1;
                continue;
            }
            // Trace the face by following directed edges
            let traced = trace_one_face(embedding, start, next_start, &mut used);
            let face = match traced {
                Some(face) => face,
                None => {
                    return None;
                },
            };
            if face.len() >= 2 {
                faces.push(face);
                assert(emb_view(faces@) =~= f0.push(face@));
            }
            idx = idx + 1;
        }
        assert(darts_upto(e, start as int).len() + idx == darts_upto(e, start + 1).len());
        start = start + 1;
    }
    assert(all_darts(e) == darts_upto(e, n as int));
    proof {
        lemma_collect_step(e, all_darts(e).len() as int, dart_set(used@), emb_view(faces@));
    }
    proof {
        if rotation_wf(e) {
            lemma_faces_are_orbits(e, emb_view(faces@));
        }
    }
    Some(faces)
}

} // verus!
