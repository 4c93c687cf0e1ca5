//! Face walks of embeddings whose lists repeat no entry: the dart after a
//! dart is a permutation of the darts, so every face traced is a closed
//! walk that follows the rotation.

use vstd::prelude::*;
use vstd::arithmetic::div_mod::{lemma_mod_add_multiples_vanish, lemma_mod_self_0, lemma_small_mod};
use crate::counting::degree_sum;
use crate::embedding::{
    all_darts, collect_faces, darts_upto, face_limit, faces_of, first_index, lemma_collect_step, lemma_darts_upto, lemma_first_index, lemma_push_to_set, lemma_trace_step, next_dart, trace_face,
    valid_embedding_spec, entries_in_range, trace_escapes, lemma_escape_step, collect_escapes,
    lemma_collect_escape_step, faces_escape,
};

verus! {

/// A valid embedding whose lists repeat no entry.
pub open spec fn rotation_wf(e: Seq<Seq<usize>>) -> bool {
    valid_embedding_spec(e) && forall|u: int| 0 <= u < e.len() ==> (#[trigger] e[u]).no_duplicates()
}

/// `d = (v, w)` is a dart: `w` is in the list of `v`.
pub open spec fn is_dart(e: Seq<Seq<usize>>, d: (usize, usize)) -> bool {
    (d.0 as int) < e.len() && e[d.0 as int].contains(d.1)
}

/// The dart after `d` along its face.
pub open spec fn succ(e: Seq<Seq<usize>>, d: (usize, usize)) -> (usize, usize) {
    next_dart(e, d.0, d.1)
}

/// The dart `k` steps after `d`.
pub open spec fn iter_dart(e: Seq<Seq<usize>>, d: (usize, usize), k: nat) -> (usize, usize)
    decreases k,
{
    if k == 0 {
        d
    } else {
        succ(e, iter_dart(e, d, (k - 1) as nat))
    }
}

proof fn lemma_first_index_of(l: Seq<usize>, v: usize) -> (j: int)
    requires
        l.no_duplicates(),
        l.contains(v),
    ensures
        0 <= j < l.len(),
        l[j] == v,
        first_index(l, v) == j,
{
    let j = choose|j: int| 0 <= j < l.len() && l[j] == v;
    assert forall|k: int| 0 <= k < j implies l[k] != v by {}
    lemma_first_index(l, v, j);
    j
}

/// The dart after a dart is a dart, leaving from the end of the first.
proof fn lemma_succ_dart(e: Seq<Seq<usize>>, d: (usize, usize))
    requires
        rotation_wf(e),
        is_dart(e, d),
    ensures
        is_dart(e, succ(e, d)),
        e[d.1 as int].contains(d.0),
        succ(e, d).0 == d.1,
{
    let v = d.0;
    let w = d.1;
    let i = choose|i: int| 0 <= i < e[v as int].len() && e[v as int][i] == w;
    assert(e[v as int][i] < e.len() && e[e[v as int][i] as int].contains(v));
    let l = e[w as int];
    assert(l.no_duplicates());
    let j = lemma_first_index_of(l, v);
    let m = l.len() as int;
    let x = l[(j + 1) % m];
    assert(0 <= (j + 1) % m < m);
    assert(l.contains(x));
}

/// Distinct darts have distinct successors.
proof fn lemma_succ_injective(e: Seq<Seq<usize>>, d1: (usize, usize), d2: (usize, usize))
    requires
        rotation_wf(e),
        is_dart(e, d1),
        is_dart(e, d2),
        succ(e, d1) == succ(e, d2),
    ensures
        d1 == d2,
{
    lemma_succ_dart(e, d1);
    lemma_succ_dart(e, d2);
    let w = d1.1;
    assert(d2.1 == w);
    let l = e[w as int];
    assert(l.no_duplicates());
    let j1 = lemma_first_index_of(l, d1.0);
    let j2 = lemma_first_index_of(l, d2.0);
    let m = l.len() as int;
    assert(l[(j1 + 1) % m] == l[(j2 + 1) % m]);
    assert(0 <= (j1 + 1) % m < m && 0 <= (j2 + 1) % m < m);
    assert((j1 + 1) % m == (j2 + 1) % m);
    lemma_index_after(j1, m);
    lemma_index_after(j2, m);
}

/// The position after `j` in a cyclic list of length `m`.
proof fn lemma_index_after(j: int, m: int)
    requires
        0 <= j < m,
    ensures
        (j + 1) % m == if j + 1 == m {
            0
        } else {
            j + 1
        },
{
    if j + 1 == m {
        lemma_mod_self_0(m);
    } else {
        lemma_small_mod((j + 1) as nat, m as nat);
    }
}

/// A dart whose successor lies in `u` lies in `u` itself.
pub open spec fn closed_back(e: Seq<Seq<usize>>, u: Set<(usize, usize)>) -> bool {
    forall|d: (usize, usize)| is_dart(e, d) && u.contains(#[trigger] succ(e, d)) ==> u.contains(d)
}

/// The first `k` darts from `s`.
pub open spec fn orbit(e: Seq<Seq<usize>>, s: (usize, usize), k: nat) -> Seq<(usize, usize)> {
    Seq::new(k, |i: int| iter_dart(e, s, i as nat))
}

/// The vertices the first `k` darts from `s` leave from.
pub open spec fn orbit_face(e: Seq<Seq<usize>>, s: (usize, usize), k: nat) -> Seq<usize> {
    Seq::new(k, |i: int| iter_dart(e, s, i as nat).0)
}

/// The darts from `s` first come back to `s` after `k` steps.
pub open spec fn closes_at(e: Seq<Seq<usize>>, s: (usize, usize), k: nat) -> bool {
    &&& k >= 1
    &&& iter_dart(e, s, k) == s
    &&& forall|i: nat| 1 <= i < k ==> #[trigger] iter_dart(e, s, i) != s
}

proof fn lemma_iter_dart(e: Seq<Seq<usize>>, s: (usize, usize), k: nat)
    requires
        rotation_wf(e),
        is_dart(e, s),
    ensures
        is_dart(e, iter_dart(e, s, k)),
    decreases k,
{
    if k > 0 {
        lemma_iter_dart(e, s, (k - 1) as nat);
        lemma_succ_dart(e, iter_dart(e, s, (k - 1) as nat));
    }
}

/// Darts reached from a dart outside a backward-closed set stay outside it.
proof fn lemma_iter_not_used(e: Seq<Seq<usize>>, u: Set<(usize, usize)>, s: (usize, usize), k: nat)
    requires
        rotation_wf(e),
        is_dart(e, s),
        closed_back(e, u),
        !u.contains(s),
    ensures
        !u.contains(iter_dart(e, s, k)),
    decreases k,
{
    if k > 0 {
        let p = iter_dart(e, s, (k - 1) as nat);
        lemma_iter_not_used(e, u, s, (k - 1) as nat);
        lemma_iter_dart(e, s, (k - 1) as nat);
        assert(iter_dart(e, s, k) == succ(e, p));
    }
}

/// The first repeat along the darts from `s` is `s` itself.
proof fn lemma_iter_repeat(e: Seq<Seq<usize>>, s: (usize, usize), i: nat, j: nat)
    requires
        rotation_wf(e),
        is_dart(e, s),
        i < j,
        iter_dart(e, s, i) == iter_dart(e, s, j),
    ensures
        iter_dart(e, s, (j - i) as nat) == s,
    decreases i,
{
    if i > 0 {
        lemma_iter_dart(e, s, (i - 1) as nat);
        lemma_iter_dart(e, s, (j - 1) as nat);
        lemma_succ_injective(e, iter_dart(e, s, (i - 1) as nat), iter_dart(e, s, (j - 1) as nat));
        lemma_iter_repeat(e, s, (i - 1) as nat, (j - 1) as nat);
    }
}

/// Tracing from the `j`-th dart after a dart `s` outside the backward-closed
/// set `u`, with the darts before it taken: the trace either gives up or
/// returns exactly the darts up to the first return to `s`, and the
/// vertices they leave from.
proof fn lemma_trace_orbit(e: Seq<Seq<usize>>, s: (usize, usize), u: Set<(usize, usize)>, j: nat)
    requires
        rotation_wf(e),
        is_dart(e, s),
        closed_back(e, u),
        !u.contains(s),
        forall|i: nat| 1 <= i <= j ==> #[trigger] iter_dart(e, s, i) != s,
        j <= face_limit(e.len()),
    ensures
        trace_face(
            e,
            s.0,
            s.1,
            u + orbit(e, s, j).to_set(),
            orbit_face(e, s, j),
            iter_dart(e, s, j).0,
            iter_dart(e, s, j).1,
        ) matches Some((u2, f)) ==> {
            &&& closes_at(e, s, f.len())
            &&& u2 == u + orbit(e, s, f.len()).to_set()
            &&& f == orbit_face(e, s, f.len())
        },
    decreases face_limit(e.len()) + 1 - j,
{
    let t = iter_dart(e, s, j);
    let used = u + orbit(e, s, j).to_set();
    let face = orbit_face(e, s, j);
    lemma_trace_step(e, s.0, s.1, used, face, t.0, t.1);
    lemma_iter_dart(e, s, j);
    lemma_iter_not_used(e, u, s, j);
    assert(!orbit(e, s, j).to_set().contains(t)) by {
        if orbit(e, s, j).contains(t) {
            let i = choose|i: int| 0 <= i < j && orbit(e, s, j)[i] == t;
            lemma_iter_repeat(e, s, i as nat, j);
            assert(iter_dart(e, s, (j - i) as nat) != s);
        }
    }
    let used1 = used.insert(t);
    let face1 = face.push(t.0);
    assert(used1 =~= u + orbit(e, s, j + 1).to_set()) by {
        assert(orbit(e, s, j + 1) =~= orbit(e, s, j).push(t));
        lemma_push_to_set(orbit(e, s, j), t);
    }
    assert(face1 =~= orbit_face(e, s, j + 1));
    lemma_succ_dart(e, t);
    let n2 = succ(e, t);
    assert(iter_dart(e, s, j + 1) == n2);
    if n2 == s {
        assert(closes_at(e, s, j + 1));
    } else if face1.len() <= face_limit(e.len()) {
        lemma_trace_orbit(e, s, u, j + 1);
    }
}

/// A closed walk along the rotation: the vertices left by the darts from
/// some dart until they first come back to it.
pub open spec fn closed_face(e: Seq<Seq<usize>>, f: Seq<usize>) -> bool {
    exists|s: (usize, usize)| is_dart(e, s) && closes_at(e, s, f.len()) && #[trigger] orbit_face(e, s, f.len()) == f
}

proof fn lemma_darts_upto_darts(e: Seq<Seq<usize>>, k: int)
    requires
        0 <= k <= e.len(),
        e.len() <= usize::MAX,
    ensures
        forall|i: int| 0 <= i < darts_upto(e, k).len() ==> is_dart(e, #[trigger] darts_upto(e, k)[i]),
    decreases k,
{
    if k > 0 {
        lemma_darts_upto_darts(e, k - 1);
        let p = darts_upto(e, k - 1);
        let q = e[k - 1].map_values(|w: usize| ((k - 1) as usize, w));
        assert(darts_upto(e, k) == p + q);
        assert forall|i: int| 0 <= i < darts_upto(e, k).len() implies is_dart(e, #[trigger] darts_upto(e, k)[i]) by {
            if i < p.len() {
                assert(darts_upto(e, k)[i] == p[i]);
            } else {
                let x = i - p.len();
                assert(darts_upto(e, k)[i] == q[x]);
                assert(e[k - 1].contains(e[k - 1][x]));
            }
        }
    }
}

/// Adding a whole closed orbit keeps a set closed backwards.
proof fn lemma_closed_back_orbit(e: Seq<Seq<usize>>, u: Set<(usize, usize)>, s: (usize, usize), k: nat)
    requires
        rotation_wf(e),
        is_dart(e, s),
        closed_back(e, u),
        closes_at(e, s, k),
    ensures
        closed_back(e, u + orbit(e, s, k).to_set()),
{
    let u2 = u + orbit(e, s, k).to_set();
    assert forall|d: (usize, usize)| is_dart(e, d) && u2.contains(#[trigger] succ(e, d)) implies u2.contains(d) by {
        if !u.contains(succ(e, d)) {
            assert(orbit(e, s, k).contains(succ(e, d)));
            let i = choose|i: int| 0 <= i < k && orbit(e, s, k)[i] == succ(e, d);
            let p: nat = if i == 0 { (k - 1) as nat } else { (i - 1) as nat };
            lemma_iter_dart(e, s, p);
            assert(succ(e, iter_dart(e, s, p)) == iter_dart(e, s, (p + 1) as nat));
            lemma_succ_injective(e, d, iter_dart(e, s, p));
            assert(orbit(e, s, k)[p as int] == d);
        }
    }
}

/// Every face collected from a backward-closed set of taken darts is a
/// closed walk along the rotation.
proof fn lemma_collect_closed(e: Seq<Seq<usize>>, k: int, used: Set<(usize, usize)>, faces: Seq<Seq<usize>>)
    requires
        rotation_wf(e),
        e.len() <= usize::MAX,
        closed_back(e, used),
        0 <= k,
        forall|x: int| 0 <= x < faces.len() ==> closed_face(e, #[trigger] faces[x]),
    ensures
        collect_faces(e, k, used, faces) matches Some(fs) ==> forall|x: int|
            0 <= x < fs.len() ==> closed_face(e, #[trigger] fs[x]),
    decreases all_darts(e).len() - k,
{
    lemma_collect_step(e, k, used, faces);
    if k < all_darts(e).len() {
        let d = all_darts(e)[k];
        lemma_darts_upto_darts(e, e.len() as int);
        assert(is_dart(e, d));
        if used.contains(d) {
            lemma_collect_closed(e, k + 1, used, faces);
        } else {
            assert(orbit(e, d, 0) =~= Seq::<(usize, usize)>::empty());
            assert(used + orbit(e, d, 0).to_set() =~= used);
            assert(orbit_face(e, d, 0) =~= Seq::<usize>::empty());
            lemma_trace_orbit(e, d, used, 0);
            match trace_face(e, d.0, d.1, used, Seq::empty(), d.0, d.1) {
                None => {},
                Some((used2, f)) => {
                    lemma_closed_back_orbit(e, used, d, f.len());
                    let faces2 = if f.len() >= 2 {
                        faces.push(f)
                    } else {
                        faces
                    };
                    assert forall|x: int| 0 <= x < faces2.len() implies closed_face(e, #[trigger] faces2[x]) by {
                        if x == faces.len() {
                            assert(faces2[x] == f);
                            assert(orbit_face(e, d, f.len()) == f);
                        } else {
                            assert(faces2[x] == faces[x]);
                        }
                    }
                    lemma_collect_closed(e, k + 1, used2, faces2);
                },
            }
        }
    }
}

/// Faces of fewer than two vertices are dropped.
pub(crate) proof fn lemma_faces_long(e: Seq<Seq<usize>>, k: int, used: Set<(usize, usize)>, faces: Seq<Seq<usize>>)
    requires
        forall|x: int| 0 <= x < faces.len() ==> (#[trigger] faces[x]).len() >= 2,
    ensures
        collect_faces(e, k, used, faces) matches Some(fs) ==> forall|x: int|
            0 <= x < fs.len() ==> (#[trigger] fs[x]).len() >= 2,
    decreases all_darts(e).len() - k,
{
    lemma_collect_step(e, k, used, faces);
    if 0 <= k < all_darts(e).len() {
        let d = all_darts(e)[k];
        if used.contains(d) {
            lemma_faces_long(e, k + 1, used, faces);
        } else {
            match trace_face(e, d.0, d.1, used, Seq::empty(), d.0, d.1) {
                None => {},
                Some((used2, f)) => {
                    let faces2 = if f.len() >= 2 {
                        faces.push(f)
                    } else {
                        faces
                    };
                    assert forall|x: int| 0 <= x < faces2.len() implies (#[trigger] faces2[x]).len() >= 2 by {
                        if x < faces.len() {
                            assert(faces2[x] == faces[x]);
                        }
                    }
                    lemma_faces_long(e, k + 1, used2, faces2);
                },
            }
        }
    }
}

proof fn lemma_closed_face_darts(e: Seq<Seq<usize>>, f: Seq<usize>, s: (usize, usize), i: int)
    requires
        rotation_wf(e),
        is_dart(e, s),
        closes_at(e, s, f.len()),
        orbit_face(e, s, f.len()) == f,
        0 <= i < f.len(),
    ensures
        iter_dart(e, s, i as nat) == (f[i], f[(i + 1) % (f.len() as int)]),
{
    let m = f.len() as int;
    lemma_iter_dart(e, s, i as nat);
    lemma_succ_dart(e, iter_dart(e, s, i as nat));
    lemma_index_after(i, m);
    assert(iter_dart(e, s, (i + 1) as nat) == succ(e, iter_dart(e, s, i as nat)));
    assert(f[i] == orbit_face(e, s, f.len())[i]);
    if i + 1 < m {
        assert(f[i + 1] == orbit_face(e, s, f.len())[i + 1]);
    } else {
        assert(f[0] == orbit_face(e, s, f.len())[0]);
    }
}

/// For an embedding whose lists are valid and repeat no entry, every face
/// that `compute_faces` reports has at least two vertices and is a closed
/// walk along the rotation: each vertex of the face lists the next one
/// (cyclically), and from each step `(v, w)` the walk goes on along the
/// neighbour that follows `v` in the list of `w`.
pub proof fn lemma_faces_are_closed_walks(e: Seq<Seq<usize>>, fs: Seq<Seq<usize>>, x: int, i: int)
    requires
        rotation_wf(e),
        e.len() <= usize::MAX,
        faces_of(e) == Some(fs),
        0 <= x < fs.len(),
        0 <= i < fs[x].len(),
    ensures
        fs[x].len() >= 2,
        (fs[x][i] as int) < e.len(),
        e[fs[x][i] as int].contains(fs[x][(i + 1) % (fs[x].len() as int)]),
        next_dart(e, fs[x][i], fs[x][(i + 1) % (fs[x].len() as int)]) == (
            fs[x][(i + 1) % (fs[x].len() as int)],
            fs[x][(i + 2) % (fs[x].len() as int)],
        ),
{
    let f = fs[x];
    let m = f.len() as int;
    assert(closed_back(e, Set::<(usize, usize)>::empty()));
    lemma_collect_closed(e, 0, Set::empty(), Seq::empty());
    lemma_faces_long(e, 0, Set::empty(), Seq::empty());
    assert(collect_faces(e, 0, Set::empty(), Seq::empty()) == Some(fs));
    assert(collect_faces(e, 0, Set::empty(), Seq::empty())->0 == fs);
    assert(closed_face(e, collect_faces(e, 0, Set::empty(), Seq::empty())->0[x]));
    assert(closed_face(e, f));
    assert(f.len() >= 2);
    let s = choose|s: (usize, usize)| is_dart(e, s) && closes_at(e, s, f.len()) && #[trigger] orbit_face(e, s, f.len()) == f;
    lemma_closed_face_darts(e, f, s, i);
    lemma_iter_dart(e, s, i as nat);
    let j = (i + 1) % m;
    lemma_index_after(i, m);
    lemma_closed_face_darts(e, f, s, j);
    lemma_index_after(j, m);
    assert((i + 2) % m == (j + 1) % m) by {
        if i + 1 == m {
            assert(j == 0);
            lemma_small_mod(1, m as nat);
            assert(m >= 2);
            assert((i + 2) % m == (m + 1) % m);
            lemma_mod_add_multiples_vanish(1, m);
        } else {
            assert(j == i + 1);
        }
    }
    assert(succ(e, iter_dart(e, s, i as nat)) == iter_dart(e, s, (i + 1) as nat));
    if i + 1 == m {
        assert(iter_dart(e, s, (i + 1) as nat) == s);
        assert(iter_dart(e, s, 0) == s);
    }
}

/// The darts along a face boundary: from each vertex to the next, cyclically.
pub open spec fn face_darts(f: Seq<usize>) -> Seq<(usize, usize)> {
    Seq::new(f.len(), |i: int| (f[i], f[(i + 1) % (f.len() as int)]))
}

/// The darts along all the faces, face by face.
pub open spec fn all_face_darts(fs: Seq<Seq<usize>>) -> Seq<(usize, usize)>
    decreases fs.len(),
{
    if fs.len() == 0 {
        Seq::empty()
    } else {
        all_face_darts(fs.drop_last()) + face_darts(fs.last())
    }
}

/// A dart that is its own successor: a loop that is its vertex's only entry.
pub open spec fn fixed_dart(e: Seq<Seq<usize>>, d: (usize, usize)) -> bool {
    succ(e, d) == d
}

/// The darts of a closed face are the darts from its first dart.
proof fn lemma_face_darts_orbit(e: Seq<Seq<usize>>, f: Seq<usize>, s: (usize, usize))
    requires
        rotation_wf(e),
        is_dart(e, s),
        closes_at(e, s, f.len()),
        orbit_face(e, s, f.len()) == f,
    ensures
        face_darts(f) == orbit(e, s, f.len()),
        orbit(e, s, f.len()).no_duplicates(),
        forall|i: int| 0 <= i < f.len() ==> is_dart(e, #[trigger] orbit(e, s, f.len())[i]),
        f.len() >= 2 ==> forall|i: int| 0 <= i < f.len() ==> !fixed_dart(e, #[trigger] orbit(e, s, f.len())[i]),
{
    let k = f.len();
    assert forall|i: int| 0 <= i < k implies #[trigger] face_darts(f)[i] == orbit(e, s, k)[i] by {
        lemma_closed_face_darts(e, f, s, i);
    }
    assert(face_darts(f) =~= orbit(e, s, k));
    assert forall|i: int, j: int| 0 <= i < j < k implies orbit(e, s, k)[i] != orbit(e, s, k)[j] by {
        if iter_dart(e, s, i as nat) == iter_dart(e, s, j as nat) {
            lemma_iter_repeat(e, s, i as nat, j as nat);
            assert(iter_dart(e, s, (j - i) as nat) != s);
        }
    }
    assert forall|i: int| 0 <= i < k implies is_dart(e, #[trigger] orbit(e, s, k)[i]) by {
        lemma_iter_dart(e, s, i as nat);
    }
    if k >= 2 {
        assert forall|i: int| 0 <= i < k implies !fixed_dart(e, #[trigger] orbit(e, s, k)[i]) by {
            let t = iter_dart(e, s, i as nat);
            if succ(e, t) == t {
                assert(iter_dart(e, s, (i + 1) as nat) == t);
                lemma_iter_repeat(e, s, i as nat, (i + 1) as nat);
                assert(iter_dart(e, s, 1) != s);
            }
        }
    }
}

/// What collecting faces keeps: the darts along the faces are distinct,
/// non-fixed darts, all taken; every start dart so far is taken; and every
/// taken dart lies along a face or is fixed.
pub open spec fn collect_inv(e: Seq<Seq<usize>>, k: int, used: Set<(usize, usize)>, faces: Seq<Seq<usize>>) -> bool {
    let fd = all_face_darts(faces);
    &&& fd.no_duplicates()
    &&& forall|i: int| 0 <= i < fd.len() ==> used.contains(#[trigger] fd[i])
    &&& forall|i: int| 0 <= i < fd.len() ==> is_dart(e, #[trigger] fd[i]) && !fixed_dart(e, fd[i])
    &&& forall|i: int| 0 <= i < k ==> used.contains(#[trigger] all_darts(e)[i])
    &&& forall|d: (usize, usize)| #[trigger] used.contains(d) ==> is_dart(e, d) && (fd.contains(d) || fixed_dart(e, d))
}

/// The collected faces, if any, keep the invariant with all start darts processed.
pub open spec fn collected_cover(e: Seq<Seq<usize>>, r: Option<Seq<Seq<usize>>>, u: Set<(usize, usize)>) -> bool {
    r matches Some(fs) ==> collect_inv(e, all_darts(e).len() as int, u, fs)
}

proof fn lemma_collect_cover(e: Seq<Seq<usize>>, k: int, used: Set<(usize, usize)>, faces: Seq<Seq<usize>>) -> (u: Set<(usize, usize)>)
    requires
        rotation_wf(e),
        e.len() <= usize::MAX,
        closed_back(e, used),
        0 <= k <= all_darts(e).len(),
        collect_inv(e, k, used, faces),
    ensures
        collected_cover(e, collect_faces(e, k, used, faces), u),
    decreases all_darts(e).len() - k,
{
    lemma_collect_step(e, k, used, faces);
    let n = all_darts(e).len() as int;
    if k == n {
        assert(collect_faces(e, k, used, faces) == Some(faces));
        assert(collect_inv(e, n, used, faces));
        used
    } else {
        let d = all_darts(e)[k];
        lemma_darts_upto_darts(e, e.len() as int);
        assert(is_dart(e, d));
        if used.contains(d) {
            assert(collect_inv(e, k + 1, used, faces));
            let u = lemma_collect_cover(e, k + 1, used, faces);
            assert(collect_faces(e, k, used, faces) == collect_faces(e, k + 1, used, faces));
            u
        } else {
            assert(orbit(e, d, 0) =~= Seq::<(usize, usize)>::empty());
            assert(used + orbit(e, d, 0).to_set() =~= used);
            assert(orbit_face(e, d, 0) =~= Seq::<usize>::empty());
            lemma_trace_orbit(e, d, used, 0);
            match trace_face(e, d.0, d.1, used, Seq::empty(), d.0, d.1) {
                None => {
                    assert(collect_faces(e, k, used, faces) is None);
                    used
                },
                Some((used2, f)) => {
                    let len = f.len();
                    lemma_closed_back_orbit(e, used, d, len);
                    lemma_face_darts_orbit(e, f, d);
                    let orb = orbit(e, d, len);
                    assert forall|i: int| 0 <= i < len implies !used.contains(#[trigger] orb[i]) by {
                        lemma_iter_not_used(e, used, d, i as nat);
                    }
                    let fd = all_face_darts(faces);
                    let faces2 = if len >= 2 {
                        faces.push(f)
                    } else {
                        faces
                    };
                    let fd2 = all_face_darts(faces2);
                    if len >= 2 {
                        assert(faces2.drop_last() =~= faces);
                        assert(fd2 == fd + orb);
                        assert(fd.disjoint(orb)) by {
                            assert forall|i: int, j: int| 0 <= i < fd.len() && 0 <= j < orb.len() implies fd[i] != orb[j] by {
                                assert(used.contains(fd[i]));
                                assert(!used.contains(orb[j]));
                            }
                        }
                        vstd::seq_lib::lemma_no_dup_in_concat(fd, orb);
                    } else {
                        assert(fd2 == fd);
                    }
                    assert(orb[0] == d);
                    assert forall|i: int| 0 <= i < fd2.len() implies used2.contains(#[trigger] fd2[i]) by {
                        if i < fd.len() {
                            assert(fd2[i] == fd[i]);
                            assert(used.contains(fd[i]));
                        } else {
                            assert(fd2[i] == orb[i - fd.len()]);
                            assert(orb.contains(orb[i - fd.len()]));
                        }
                    }
                    assert forall|i: int| 0 <= i < fd2.len() implies is_dart(e, #[trigger] fd2[i]) && !fixed_dart(e, fd2[i]) by {
                        if i < fd.len() {
                            assert(fd2[i] == fd[i]);
                        } else {
                            assert(fd2[i] == orb[i - fd.len()]);
                        }
                    }
                    assert forall|i: int| 0 <= i < k + 1 implies used2.contains(#[trigger] all_darts(e)[i]) by {
                        if i == k {
                            assert(orb.contains(orb[0]));
                        }
                    }
                    assert forall|x: (usize, usize)| #[trigger] used2.contains(x) implies is_dart(e, x) && (fd2.contains(x)
                        || fixed_dart(e, x)) by {
                        if used.contains(x) {
                            if fd.contains(x) {
                                let i = choose|i: int| 0 <= i < fd.len() && fd[i] == x;
                                assert(fd2[i] == x);
                            }
                        } else {
                            assert(orb.to_set().contains(x));
                            let i = choose|i: int| 0 <= i < orb.len() && orb[i] == x;
                            if len >= 2 {
                                assert(fd2[fd.len() + i] == x);
                            } else {
                                assert(iter_dart(e, d, 1) == d);
                            }
                        }
                    }
                    assert(collect_inv(e, k + 1, used2, faces2));
                    let u = lemma_collect_cover(e, k + 1, used2, faces2);
                    assert(collect_faces(e, k, used, faces) == collect_faces(e, k + 1, used2, faces2));
                    u
                },
            }
        }
    }
}

/// For an embedding whose lists are valid and repeat no entry, the faces
/// that `compute_faces` reports run along every dart exactly once, except
/// the darts that are their own successor (a loop that is the only entry of
/// its vertex's list), which lie on no face.
pub proof fn lemma_faces_cover_darts(e: Seq<Seq<usize>>, fs: Seq<Seq<usize>>, d: (usize, usize))
    requires
        rotation_wf(e),
        e.len() <= usize::MAX,
        faces_of(e) == Some(fs),
    ensures
        all_face_darts(fs).no_duplicates(),
        all_face_darts(fs).contains(d) <==> (is_dart(e, d) && next_dart(e, d.0, d.1) != d),
{
    let empty = Set::<(usize, usize)>::empty();
    let none = Seq::<Seq<usize>>::empty();
    assert(all_face_darts(none) =~= Seq::<(usize, usize)>::empty());
    assert(collect_inv(e, 0, empty, none));
    let u = lemma_collect_cover(e, 0, empty, none);
    assert(collect_faces(e, 0, empty, none) == Some(fs));
    let n = all_darts(e).len() as int;
    assert(collect_inv(e, n, u, fs));
    let fd = all_face_darts(fs);
    if fd.contains(d) {
        let i = choose|i: int| 0 <= i < fd.len() && fd[i] == d;
        assert(is_dart(e, fd[i]) && !fixed_dart(e, fd[i]));
    }
    if is_dart(e, d) && next_dart(e, d.0, d.1) != d {
        let v = d.0 as int;
        let i = choose|i: int| 0 <= i < e[v].len() && e[v][i] == d.1;
        lemma_darts_upto(e, v, e.len() as int);
        let k = darts_upto(e, v).len() + i;
        assert(all_darts(e)[k] == d);
        assert(u.contains(all_darts(e)[k]));
    }
}

proof fn lemma_least_index(l: Seq<usize>, x: usize, i: int)
    requires
        0 <= i < l.len(),
        l[i] == x,
    ensures
        0 <= first_index(l, x) < l.len(),
        l[first_index(l, x)] == x,
    decreases i,
{
    if exists|j: int| 0 <= j < i && l[j] == x {
        let j = choose|j: int| 0 <= j < i && l[j] == x;
        lemma_least_index(l, x, j);
    } else {
        lemma_first_index(l, x, i);
    }
}

/// With every entry a vertex, a trace from a dart into a vertex never
/// escapes the vertices.
proof fn lemma_trace_in_range(
    e: Seq<Seq<usize>>,
    start: usize,
    ns: usize,
    used: Set<(usize, usize)>,
    face: Seq<usize>,
    v: usize,
    w: usize,
)
    requires
        entries_in_range(e),
        (w as int) < e.len(),
    ensures
        !trace_escapes(e, start, ns, used, face, v, w),
    decreases face_limit(e.len()) + 1 - face.len(),
{
    lemma_escape_step(e, start, ns, used, face, v, w);
    if !used.contains((v, w)) && e[w as int].contains(v) {
        let l = e[w as int];
        let i = choose|i: int| 0 <= i < l.len() && l[i] == v;
        lemma_least_index(l, v, i);
        let j = (first_index(l, v) + 1) % (l.len() as int);
        assert(0 <= j < l.len());
        assert(l[j] < e.len());
        let face1 = face.push(v);
        if face1.len() <= face_limit(e.len()) {
            lemma_trace_in_range(e, start, ns, used.insert((v, w)), face1, w, l[j]);
        }
    }
}

/// With every entry a vertex, collecting faces never escapes the vertices.
pub(crate) proof fn lemma_collect_in_range(
    e: Seq<Seq<usize>>,
    k: int,
    used: Set<(usize, usize)>,
    faces: Seq<Seq<usize>>,
)
    requires
        entries_in_range(e),
        e.len() <= usize::MAX,
        0 <= k,
    ensures
        !collect_escapes(e, k, used, faces),
    decreases all_darts(e).len() - k,
{
    lemma_collect_escape_step(e, k, used, faces);
    if k < all_darts(e).len() {
        let d = all_darts(e)[k];
        lemma_darts_upto_darts(e, e.len() as int);
        assert(is_dart(e, d));
        let i = choose|i: int| 0 <= i < e[d.0 as int].len() && e[d.0 as int][i] == d.1;
        assert(d.1 < e.len());
        lemma_trace_in_range(e, d.0, d.1, used, Seq::empty(), d.0, d.1);
        if used.contains(d) {
            lemma_collect_in_range(e, k + 1, used, faces);
        } else {
            match trace_face(e, d.0, d.1, used, Seq::empty(), d.0, d.1) {
                None => {},
                Some((used2, f)) => {
                    lemma_collect_in_range(
                        e,
                        k + 1,
                        used2,
                        if f.len() >= 2 {
                            faces.push(f)
                        } else {
                            faces
                        },
                    );
                },
            }
        }
    }
}

/// With every entry a vertex, tracing the faces never escapes the vertices.
pub proof fn lemma_faces_stay_in_range(e: Seq<Seq<usize>>)
    requires
        entries_in_range(e),
        e.len() <= usize::MAX,
    ensures
        !faces_escape(e),
{
    lemma_collect_in_range(e, 0, Set::empty(), Seq::empty());
}

/// The faces of `e` are its orbits of darts: every dart that is not its
/// own successor lies on exactly one face, and each face is a closed walk
/// that at each step turns to the neighbour following the one just left.
pub open spec fn faces_are_orbits(e: Seq<Seq<usize>>, fs: Seq<Seq<usize>>) -> bool {
    &&& all_face_darts(fs).no_duplicates()
    &&& forall|d: (usize, usize)| #[trigger] all_face_darts(fs).contains(d) <==> (is_dart(e, d) && next_dart(e, d.0, d.1) != d)
    &&& forall|x: int| 0 <= x < fs.len() ==> (#[trigger] fs[x]).len() >= 2
    &&& forall|x: int, i: int|
        #![trigger fs[x][i]]
        0 <= x < fs.len() && 0 <= i < fs[x].len() ==> {
            let f = fs[x];
            let m = f.len() as int;
            &&& e[f[i] as int].contains(f[(i + 1) % m])
            &&& next_dart(e, f[i], f[(i + 1) % m]) == (f[(i + 1) % m], f[(i + 2) % m])
        }
}

/// For an embedding whose lists are valid and repeat no entry, the faces
/// are its orbits of darts.
pub proof fn lemma_faces_are_orbits(e: Seq<Seq<usize>>, fs: Seq<Seq<usize>>)
    requires
        rotation_wf(e),
        e.len() <= usize::MAX,
        faces_of(e) == Some(fs),
    ensures
        faces_are_orbits(e, fs),
{
    lemma_faces_cover_darts(e, fs, (0, 0));
    assert forall|d: (usize, usize)| #[trigger] all_face_darts(fs).contains(d) <==> (is_dart(e, d) && next_dart(
        e,
        d.0,
        d.1,
    ) != d) by {
        lemma_faces_cover_darts(e, fs, d);
    }
    assert forall|x: int, i: int|
        #![trigger fs[x][i]]
        0 <= x < fs.len() && 0 <= i < fs[x].len() implies {
            let f = fs[x];
            let m = f.len() as int;
            &&& e[f[i] as int].contains(f[(i + 1) % m])
            &&& next_dart(e, f[i], f[(i + 1) % m]) == (f[(i + 1) % m], f[(i + 2) % m])
        } by {
        lemma_faces_are_closed_walks(e, fs, x, i);
    }
    assert forall|x: int| 0 <= x < fs.len() implies (#[trigger] fs[x]).len() >= 2 by {
        lemma_faces_long(e, 0, Set::empty(), Seq::empty());
        assert(collect_faces(e, 0, Set::empty(), Seq::empty())->0 == fs);
        assert(collect_faces(e, 0, Set::empty(), Seq::empty())->0[x].len() >= 2);
    }
}

/// The number of darts is the sum of the list lengths.
pub(crate) proof fn lemma_darts_count(e: Seq<Seq<usize>>, k: int)
    requires
        0 <= k <= e.len(),
    ensures
        darts_upto(e, k).len() == degree_sum(e, k),
    decreases k,
{
    if k > 0 {
        lemma_darts_count(e, k - 1);
    }
}

/// Every dart is listed among all darts.
pub(crate) proof fn lemma_dart_listed(e: Seq<Seq<usize>>, d: (usize, usize))
    requires
        is_dart(e, d),
    ensures
        all_darts(e).contains(d),
{
    let v = d.0 as int;
    let i = choose|i: int| 0 <= i < e[v].len() && e[v][i] == d.1;
    lemma_darts_upto(e, v, e.len() as int);
    assert(all_darts(e)[darts_upto(e, v).len() + i] == d);
}

/// The darts from `s` before its first return are distinct darts, so there
/// are no more of them than darts.
proof fn lemma_orbit_within_darts(e: Seq<Seq<usize>>, s: (usize, usize), j: nat)
    requires
        rotation_wf(e),
        is_dart(e, s),
        forall|i: nat| 1 <= i < j ==> #[trigger] iter_dart(e, s, i) != s,
    ensures
        j <= all_darts(e).len(),
{
    let o = orbit(e, s, j);
    assert(o.no_duplicates()) by {
        assert forall|i: int, k: int| 0 <= i < k < o.len() implies o[i] != o[k] by {
            if iter_dart(e, s, i as nat) == iter_dart(e, s, k as nat) {
                lemma_iter_repeat(e, s, i as nat, k as nat);
                assert(iter_dart(e, s, (k - i) as nat) != s);
            }
        }
    }
    o.unique_seq_to_set();
    assert(o.to_set().subset_of(all_darts(e).to_set())) by {
        assert forall|d: (usize, usize)| o.to_set().contains(d) implies all_darts(e).to_set().contains(d) by {
            let i = choose|i: int| 0 <= i < o.len() && o[i] == d;
            lemma_iter_dart(e, s, i as nat);
            lemma_dart_listed(e, d);
        }
    }
    vstd::set_lib::lemma_len_subset(o.to_set(), all_darts(e).to_set());
    all_darts(e).lemma_cardinality_of_set();
}

/// With no more than `4n + 4` darts, tracing a face from an untaken dart
/// never gives up.
proof fn lemma_trace_completes(e: Seq<Seq<usize>>, s: (usize, usize), u: Set<(usize, usize)>, j: nat)
    requires
        rotation_wf(e),
        degree_sum(e, e.len() as int) <= 4 * e.len() + 4,
        is_dart(e, s),
        closed_back(e, u),
        !u.contains(s),
        forall|i: nat| 1 <= i <= j ==> #[trigger] iter_dart(e, s, i) != s,
        j <= face_limit(e.len()),
    ensures
        trace_face(
            e,
            s.0,
            s.1,
            u + orbit(e, s, j).to_set(),
            orbit_face(e, s, j),
            iter_dart(e, s, j).0,
            iter_dart(e, s, j).1,
        ) is Some,
    decreases face_limit(e.len()) + 1 - j,
{
    let t = iter_dart(e, s, j);
    let used = u + orbit(e, s, j).to_set();
    let face = orbit_face(e, s, j);
    lemma_trace_step(e, s.0, s.1, used, face, t.0, t.1);
    lemma_iter_dart(e, s, j);
    lemma_iter_not_used(e, u, s, j);
    assert(!orbit(e, s, j).to_set().contains(t)) by {
        if orbit(e, s, j).contains(t) {
            let i = choose|i: int| 0 <= i < j && orbit(e, s, j)[i] == t;
            lemma_iter_repeat(e, s, i as nat, j);
            assert(iter_dart(e, s, (j - i) as nat) != s);
        }
    }
    let used1 = used.insert(t);
    let face1 = face.push(t.0);
    assert(used1 =~= u + orbit(e, s, j + 1).to_set()) by {
        assert(orbit(e, s, j + 1) =~= orbit(e, s, j).push(t));
        lemma_push_to_set(orbit(e, s, j), t);
    }
    assert(face1 =~= orbit_face(e, s, j + 1));
    lemma_succ_dart(e, t);
    let n2 = succ(e, t);
    assert(iter_dart(e, s, j + 1) == n2);
    if n2 != s {
        lemma_orbit_within_darts(e, s, j + 1);
        lemma_darts_count(e, e.len() as int);
        assert(face1.len() <= face_limit(e.len()));
        lemma_trace_completes(e, s, u, j + 1);
    }
}

/// With no more than `4n + 4` darts, collecting faces never gives up.
proof fn lemma_collect_completes(e: Seq<Seq<usize>>, k: int, used: Set<(usize, usize)>, faces: Seq<Seq<usize>>)
    requires
        rotation_wf(e),
        e.len() <= usize::MAX,
        degree_sum(e, e.len() as int) <= 4 * e.len() + 4,
        closed_back(e, used),
        0 <= k,
    ensures
        collect_faces(e, k, used, faces) is Some,
    decreases all_darts(e).len() - k,
{
    lemma_collect_step(e, k, used, faces);
    if k < all_darts(e).len() {
        let d = all_darts(e)[k];
        lemma_darts_upto_darts(e, e.len() as int);
        assert(is_dart(e, d));
        if used.contains(d) {
            lemma_collect_completes(e, k + 1, used, faces);
        } else {
            assert(orbit(e, d, 0) =~= Seq::<(usize, usize)>::empty());
            assert(used + orbit(e, d, 0).to_set() =~= used);
            assert(orbit_face(e, d, 0) =~= Seq::<usize>::empty());
            lemma_trace_orbit(e, d, used, 0);
            lemma_trace_completes(e, d, used, 0);
            match trace_face(e, d.0, d.1, used, Seq::empty(), d.0, d.1) {
                None => {},
                Some((used2, f)) => {
                    lemma_closed_back_orbit(e, used, d, f.len());
                    lemma_collect_completes(
                        e,
                        k + 1,
                        used2,
                        if f.len() >= 2 {
                            faces.push(f)
                        } else {
                            faces
                        },
                    );
                },
            }
        }
    }
}

/// Tracing the faces of an embedding whose lists are valid and repeat no
/// entry never gives up when it has at most `4n + 4` darts (list entries
/// in all): every face walk closes before it outgrows the tracing cap.
pub proof fn lemma_faces_complete(e: Seq<Seq<usize>>)
    requires
        rotation_wf(e),
        e.len() <= usize::MAX,
        degree_sum(e, e.len() as int) <= 4 * e.len() + 4,
    ensures
        faces_of(e) is Some,
{
    assert(closed_back(e, Set::<(usize, usize)>::empty()));
    lemma_collect_completes(e, 0, Set::empty(), Seq::empty());
}

proof fn lemma_trace_completes_uniform(
    e: Seq<Seq<usize>>,
    k: nat,
    s: (usize, usize),
    u: Set<(usize, usize)>,
    j: nat,
)
    requires
        rotation_wf(e),
        1 <= k <= face_limit(e.len()),
        forall|d: (usize, usize)| #[trigger] is_dart(e, d) ==> closes_at(e, d, k),
        is_dart(e, s),
        closed_back(e, u),
        !u.contains(s),
        forall|i: nat| 1 <= i <= j ==> #[trigger] iter_dart(e, s, i) != s,
        j < k,
    ensures
        trace_face(
            e,
            s.0,
            s.1,
            u + orbit(e, s, j).to_set(),
            orbit_face(e, s, j),
            iter_dart(e, s, j).0,
            iter_dart(e, s, j).1,
        ) is Some,
    decreases k - j,
{
    let t = iter_dart(e, s, j);
    let used = u + orbit(e, s, j).to_set();
    let face = orbit_face(e, s, j);
    lemma_trace_step(e, s.0, s.1, used, face, t.0, t.1);
    lemma_iter_dart(e, s, j);
    lemma_iter_not_used(e, u, s, j);
    assert(!orbit(e, s, j).to_set().contains(t)) by {
        if orbit(e, s, j).contains(t) {
            let i = choose|i: int| 0 <= i < j && orbit(e, s, j)[i] == t;
            lemma_iter_repeat(e, s, i as nat, j);
            assert(iter_dart(e, s, (j - i) as nat) != s);
        }
    }
    let used1 = used.insert(t);
    let face1 = face.push(t.0);
    assert(used1 =~= u + orbit(e, s, j + 1).to_set()) by {
        assert(orbit(e, s, j + 1) =~= orbit(e, s, j).push(t));
        lemma_push_to_set(orbit(e, s, j), t);
    }
    assert(face1 =~= orbit_face(e, s, j + 1));
    lemma_succ_dart(e, t);
    let n2 = succ(e, t);
    assert(iter_dart(e, s, j + 1) == n2);
    if n2 != s {
        assert(closes_at(e, s, k));
        assert(j + 1 < k);
        lemma_trace_completes_uniform(e, k, s, u, j + 1);
    }
}

proof fn lemma_collect_completes_uniform(
    e: Seq<Seq<usize>>,
    kk: nat,
    k: int,
    used: Set<(usize, usize)>,
    faces: Seq<Seq<usize>>,
)
    requires
        rotation_wf(e),
        e.len() <= usize::MAX,
        1 <= kk <= face_limit(e.len()),
        forall|d: (usize, usize)| #[trigger] is_dart(e, d) ==> closes_at(e, d, kk),
        closed_back(e, used),
        0 <= k,
    ensures
        collect_faces(e, k, used, faces) is Some,
    decreases all_darts(e).len() - k,
{
    lemma_collect_step(e, k, used, faces);
    if k < all_darts(e).len() {
        let d = all_darts(e)[k];
        lemma_darts_upto_darts(e, e.len() as int);
        assert(is_dart(e, d));
        if used.contains(d) {
            lemma_collect_completes_uniform(e, kk, k + 1, used, faces);
        } else {
            assert(orbit(e, d, 0) =~= Seq::<(usize, usize)>::empty());
            assert(used + orbit(e, d, 0).to_set() =~= used);
            assert(orbit_face(e, d, 0) =~= Seq::<usize>::empty());
            lemma_trace_orbit(e, d, used, 0);
            lemma_trace_completes_uniform(e, kk, d, used, 0);
            match trace_face(e, d.0, d.1, used, Seq::empty(), d.0, d.1) {
                None => {},
                Some((used2, f)) => {
                    lemma_closed_back_orbit(e, used, d, f.len());
                    lemma_collect_completes_uniform(
                        e,
                        kk,
                        k + 1,
                        used2,
                        if f.len() >= 2 {
                            faces.push(f)
                        } else {
                            faces
                        },
                    );
                },
            }
        }
    }
}

/// When every dart of an embedding (valid, without repeated entries) comes
/// back to itself after exactly `k` steps, and `k` is at most `4n + 4`, the
/// faces are all traced and each has exactly `k` vertices.
pub proof fn lemma_uniform_faces(e: Seq<Seq<usize>>, k: nat)
    requires
        rotation_wf(e),
        e.len() <= usize::MAX,
        2 <= k <= 4 * e.len() + 4,
        forall|d: (usize, usize)| #[trigger] is_dart(e, d) ==> closes_at(e, d, k),
    ensures
        faces_of(e) is Some,
        forall|x: int| 0 <= x < faces_of(e)->0.len() ==> (#[trigger] faces_of(e)->0[x]).len() == k,
{
    assert(closed_back(e, Set::<(usize, usize)>::empty()));
    lemma_collect_completes_uniform(e, k, 0, Set::empty(), Seq::empty());
    let fs = faces_of(e)->0;
    lemma_collect_closed(e, 0, Set::empty(), Seq::empty());
    assert(collect_faces(e, 0, Set::empty(), Seq::empty())->0 == fs);
    assert forall|x: int| 0 <= x < fs.len() implies (#[trigger] fs[x]).len() == k by {
        assert(collect_faces(e, 0, Set::empty(), Seq::empty())->0[x] == fs[x]);
        assert(closed_face(e, fs[x]));
        let s = choose|s: (usize, usize)| is_dart(e, s) && closes_at(e, s, fs[x].len()) && #[trigger] orbit_face(
            e,
            s,
            fs[x].len(),
        ) == fs[x];
        assert(closes_at(e, s, k));
        let m = fs[x].len();
        if m < k {
            assert(iter_dart(e, s, m) == s);
        } else if m > k {
            assert(iter_dart(e, s, k) == s);
        }
    }
}

/// A dart whose face walk takes more than `4n + 5` steps to come back.
pub open spec fn long_orbit(e: Seq<Seq<usize>>, d: (usize, usize)) -> bool {
    forall|i: nat| 1 <= i <= 4 * e.len() + 5 ==> #[trigger] iter_dart(e, d, i) != d
}

/// Tracing a face from an untaken dart whose walk is longer than the cap
/// gives up.
proof fn lemma_trace_long(e: Seq<Seq<usize>>, s: (usize, usize), u: Set<(usize, usize)>)
    requires
        rotation_wf(e),
        is_dart(e, s),
        closed_back(e, u),
        !u.contains(s),
        long_orbit(e, s),
    ensures
        trace_face(e, s.0, s.1, u, Seq::empty(), s.0, s.1) is None,
{
    assert(orbit(e, s, 0) =~= Seq::<(usize, usize)>::empty());
    assert(u + orbit(e, s, 0).to_set() =~= u);
    assert(orbit_face(e, s, 0) =~= Seq::<usize>::empty());
    lemma_trace_orbit(e, s, u, 0);
    lemma_trace_bounded(e, s, u, 0);
}

/// A face that tracing reports has at most `4n + 5` darts.
proof fn lemma_trace_bounded(e: Seq<Seq<usize>>, s: (usize, usize), u: Set<(usize, usize)>, j: nat)
    requires
        rotation_wf(e),
        is_dart(e, s),
        closed_back(e, u),
        !u.contains(s),
        forall|i: nat| 1 <= i <= j ==> #[trigger] iter_dart(e, s, i) != s,
        j <= face_limit(e.len()),
    ensures
        trace_face(
            e,
            s.0,
            s.1,
            u + orbit(e, s, j).to_set(),
            orbit_face(e, s, j),
            iter_dart(e, s, j).0,
            iter_dart(e, s, j).1,
        ) matches Some((u2, f)) ==> f.len() <= 4 * e.len() + 5,
    decreases face_limit(e.len()) + 1 - j,
{
    let t = iter_dart(e, s, j);
    let used = u + orbit(e, s, j).to_set();
    let face = orbit_face(e, s, j);
    lemma_trace_step(e, s.0, s.1, used, face, t.0, t.1);
    lemma_iter_dart(e, s, j);
    lemma_iter_not_used(e, u, s, j);
    assert(!orbit(e, s, j).to_set().contains(t)) by {
        if orbit(e, s, j).contains(t) {
            let i = choose|i: int| 0 <= i < j && orbit(e, s, j)[i] == t;
            lemma_iter_repeat(e, s, i as nat, j);
            assert(iter_dart(e, s, (j - i) as nat) != s);
        }
    }
    let used1 = used.insert(t);
    let face1 = face.push(t.0);
    assert(used1 =~= u + orbit(e, s, j + 1).to_set()) by {
        assert(orbit(e, s, j + 1) =~= orbit(e, s, j).push(t));
        lemma_push_to_set(orbit(e, s, j), t);
    }
    assert(face1 =~= orbit_face(e, s, j + 1));
    lemma_succ_dart(e, t);
    let n2 = succ(e, t);
    assert(iter_dart(e, s, j + 1) == n2);
    if n2 != s && face1.len() <= face_limit(e.len()) {
        lemma_trace_bounded(e, s, u, j + 1);
    }
}

proof fn lemma_iter_add(e: Seq<Seq<usize>>, s: (usize, usize), i: nat, j: nat)
    ensures
        iter_dart(e, iter_dart(e, s, i), j) == iter_dart(e, s, i + j),
    decreases j,
{
    if j > 0 {
        lemma_iter_add(e, s, i, (j - 1) as nat);
    }
}

proof fn lemma_collect_long(
    e: Seq<Seq<usize>>,
    d: (usize, usize),
    k: int,
    used: Set<(usize, usize)>,
    faces: Seq<Seq<usize>>,
)
    requires
        rotation_wf(e),
        e.len() <= usize::MAX,
        is_dart(e, d),
        long_orbit(e, d),
        closed_back(e, used),
        !used.contains(d),
        0 <= k,
        exists|x: int| k <= x < all_darts(e).len() && all_darts(e)[x] == d,
    ensures
        collect_faces(e, k, used, faces) is None,
    decreases all_darts(e).len() - k,
{
    lemma_collect_step(e, k, used, faces);
    lemma_darts_upto_darts(e, e.len() as int);
    let dk = all_darts(e)[k];
    assert(is_dart(e, dk));
    if dk == d {
        lemma_trace_long(e, d, used);
    } else if used.contains(dk) {
        lemma_collect_long(e, d, k + 1, used, faces);
    } else {
        lemma_trace_orbit(e, dk, used, 0);
        assert(orbit(e, dk, 0) =~= Seq::<(usize, usize)>::empty());
        assert(used + orbit(e, dk, 0).to_set() =~= used);
        assert(orbit_face(e, dk, 0) =~= Seq::<usize>::empty());
        lemma_trace_bounded(e, dk, used, 0);
        match trace_face(e, dk.0, dk.1, used, Seq::empty(), dk.0, dk.1) {
            None => {},
            Some((used2, f)) => {
                let len = f.len();
                lemma_closed_back_orbit(e, used, dk, len);
                assert(!used2.contains(d)) by {
                    if orbit(e, dk, len).contains(d) {
                        let i = choose|i: int| 0 <= i < len && orbit(e, dk, len)[i] == d;
                        let ii = i as nat;
                        assert(iter_dart(e, dk, ii) == d);
                        lemma_iter_add(e, dk, ii, len);
                        lemma_iter_add(e, dk, len, ii);
                        assert(iter_dart(e, dk, len) == dk);
                        assert(ii + len == len + ii);
                        assert(iter_dart(e, d, len) == d);
                        assert(1 <= len <= 4 * e.len() + 5);
                    }
                }
                let faces2 = if f.len() >= 2 {
                    faces.push(f)
                } else {
                    faces
                };
                lemma_collect_long(e, d, k + 1, used2, faces2);
            },
        }
    }
}

/// Tracing gives up on an embedding (valid, without repeated entries) with
/// a face walk longer than `4n + 5` darts: no faces are reported.
pub proof fn lemma_long_face_gives_up(e: Seq<Seq<usize>>, d: (usize, usize))
    requires
        rotation_wf(e),
        e.len() <= usize::MAX,
        is_dart(e, d),
        long_orbit(e, d),
    ensures
        faces_of(e) is None,
{
    assert(closed_back(e, Set::<(usize, usize)>::empty()));
    lemma_dart_listed(e, d);
    lemma_collect_long(e, d, 0, Set::empty(), Seq::empty());
}

} // verus!
