//! Walks and reachability over adjacency lists, the model behind every
//! search in the library.

use vstd::prelude::*;
use crate::adj_wf;

verus! {

/// `p` is a non-empty walk of `a` whose vertices all satisfy `ok`.
pub open spec fn walk_within(a: Seq<Seq<usize>>, ok: spec_fn(usize) -> bool, p: Seq<usize>) -> bool {
    &&& p.len() > 0
    &&& forall|i: int| 0 <= i < p.len() ==> (#[trigger] p[i]) < a.len() && ok(p[i])
    &&& forall|i: int|
        #![trigger p[i], p[i + 1]]
        0 <= i < p.len() - 1 ==> a[p[i] as int].contains(p[i + 1])
}

/// `y` can be reached from `x` through vertices satisfying `ok` (both ends included).
pub open spec fn reachable_within(
    a: Seq<Seq<usize>>,
    ok: spec_fn(usize) -> bool,
    x: usize,
    y: usize,
) -> bool {
    exists|p: Seq<usize>| #[trigger] walk_within(a, ok, p) && p[0] == x && p.last() == y
}

/// Every vertex is allowed.
pub open spec fn any_vertex() -> spec_fn(usize) -> bool {
    |v: usize| true
}

/// `y` can be reached from `x`.
pub open spec fn reachable(a: Seq<Seq<usize>>, x: usize, y: usize) -> bool {
    reachable_within(a, any_vertex(), x, y)
}

/// Every allowed vertex reaches itself.
pub proof fn lemma_reach_refl(a: Seq<Seq<usize>>, ok: spec_fn(usize) -> bool, x: usize)
    requires
        x < a.len(),
        ok(x),
    ensures
        reachable_within(a, ok, x, x),
{
    let p = seq![x];
    assert(walk_within(a, ok, p));
}

/// A reachable vertex's allowed neighbours are reachable.
pub proof fn lemma_reach_step(
    a: Seq<Seq<usize>>,
    ok: spec_fn(usize) -> bool,
    x: usize,
    v: usize,
    w: usize,
)
    requires
        reachable_within(a, ok, x, v),
        a[v as int].contains(w),
        w < a.len(),
        ok(w),
    ensures
        reachable_within(a, ok, x, w),
{
    let p = choose|p: Seq<usize>| #[trigger] walk_within(a, ok, p) && p[0] == x && p.last() == v;
    let q = p.push(w);
    assert forall|i: int| 0 <= i < q.len() - 1 implies a[q[i] as int].contains(q[i + 1]) by {
        if i < p.len() - 1 {
            assert(q[i] == p[i] && q[i + 1] == p[i + 1]);
        }
    }
    assert(walk_within(a, ok, q));
}

proof fn lemma_closed_prefix(
    a: Seq<Seq<usize>>,
    ok: spec_fn(usize) -> bool,
    s: spec_fn(usize) -> bool,
    p: Seq<usize>,
    k: int,
)
    requires
        walk_within(a, ok, p),
        s(p[0]),
        forall|v: usize, w: usize|
            #![trigger s(v), a[v as int].contains(w)]
            s(v) && v < a.len() && a[v as int].contains(w) && w < a.len() && ok(w) ==> s(w),
        0 <= k < p.len(),
    ensures
        s(p[k]),
    decreases k,
{
    if k > 0 {
        lemma_closed_prefix(a, ok, s, p, k - 1);
        let j = k - 1;
        assert(a[p[j] as int].contains(p[j + 1]));
        assert(p[k] < a.len() && ok(p[k]));
    }
}

/// A set that contains `x` and every allowed neighbour of its members
/// contains everything reachable from `x`.
pub proof fn lemma_reach_closed(
    a: Seq<Seq<usize>>,
    ok: spec_fn(usize) -> bool,
    s: spec_fn(usize) -> bool,
    x: usize,
    y: usize,
)
    requires
        s(x),
        forall|v: usize, w: usize|
            #![trigger s(v), a[v as int].contains(w)]
            s(v) && v < a.len() && a[v as int].contains(w) && w < a.len() && ok(w) ==> s(w),
        reachable_within(a, ok, x, y),
    ensures
        s(y),
{
    let p = choose|p: Seq<usize>| #[trigger] walk_within(a, ok, p) && p[0] == x && p.last() == y;
    lemma_closed_prefix(a, ok, s, p, p.len() - 1);
}

/// Reachability is symmetric on well-formed adjacency lists.
pub proof fn lemma_reach_symm(a: Seq<Seq<usize>>, ok: spec_fn(usize) -> bool, x: usize, y: usize)
    requires
        adj_wf(a),
        reachable_within(a, ok, x, y),
    ensures
        reachable_within(a, ok, y, x),
{
    let p = choose|p: Seq<usize>| #[trigger] walk_within(a, ok, p) && p[0] == x && p.last() == y;
    let q = p.reverse();
    assert forall|i: int| 0 <= i < q.len() - 1 implies a[q[i] as int].contains(q[i + 1]) by {
        let k = p.len() - 2 - i;
        assert(q[i] == p[k + 1] && q[i + 1] == p[k]);
        assert(a[p[k] as int].contains(p[k + 1]));
        assert(p[k] < a.len());
    }
    assert forall|i: int| 0 <= i < q.len() implies (#[trigger] q[i]) < a.len() && ok(q[i]) by {
        assert(q[i] == p[p.len() - 1 - i]);
    }
    assert(walk_within(a, ok, q));
    assert(q[0] == y);
    assert(q.last() == x);
}

/// Reachability is transitive.
pub proof fn lemma_reach_trans(
    a: Seq<Seq<usize>>,
    ok: spec_fn(usize) -> bool,
    x: usize,
    y: usize,
    z: usize,
)
    requires
        reachable_within(a, ok, x, y),
        reachable_within(a, ok, y, z),
    ensures
        reachable_within(a, ok, x, z),
{
    let p = choose|p: Seq<usize>| #[trigger] walk_within(a, ok, p) && p[0] == x && p.last() == y;
    let q = choose|q: Seq<usize>| #[trigger] walk_within(a, ok, q) && q[0] == y && q.last() == z;
    let r = p + q.drop_first();
    assert forall|i: int| 0 <= i < r.len() implies (#[trigger] r[i]) < a.len() && ok(r[i]) by {
        if i < p.len() {
            assert(r[i] == p[i]);
        } else {
            assert(r[i] == q[i - p.len() + 1]);
        }
    }
    assert forall|i: int| 0 <= i < r.len() - 1 implies a[r[i] as int].contains(r[i + 1]) by {
        if i < p.len() - 1 {
            assert(r[i] == p[i] && r[i + 1] == p[i + 1]);
        } else if i == p.len() - 1 {
            assert(r[i] == q[0] && r[i + 1] == q[1]);
        } else {
            let k = i - p.len() + 1;
            assert(r[i] == q[k] && r[i + 1] == q[k + 1]);
        }
    }
    assert(walk_within(a, ok, r));
    if q.len() == 1 {
        assert(r =~= p);
    } else {
        assert(r.last() == q.last());
    }
}

/// What a pushed seq contains.
pub proof fn lemma_push_contains<A>(s: Seq<A>, x: A, y: A)
    ensures
        s.push(x).contains(y) <==> (s.contains(y) || x == y),
{
    if s.push(x).contains(y) && x != y {
        let i = choose|i: int| 0 <= i < s.push(x).len() && s.push(x)[i] == y;
        assert(s[i] == y);
    }
    if s.contains(y) {
        let i = choose|i: int| 0 <= i < s.len() && s[i] == y;
        assert(s.push(x)[i] == y);
    }
    if x == y {
        assert(s.push(x)[s.len() as int] == y);
    }
}

/// The number of `true` entries.
pub open spec fn count_true(s: Seq<bool>) -> nat
    decreases s.len(),
{
    if s.len() == 0 {
        0
    } else {
        count_true(s.drop_last()) + if s.last() {
            1nat
        } else {
            0nat
        }
    }
}

/// At most every entry is `true`.
pub proof fn lemma_count_true_bound(s: Seq<bool>)
    ensures
        count_true(s) <= s.len(),
    decreases s.len(),
{
    if s.len() > 0 {
        lemma_count_true_bound(s.drop_last());
    }
}

/// All entries `false` count zero.
pub proof fn lemma_count_true_none(s: Seq<bool>)
    requires
        forall|i: int| 0 <= i < s.len() ==> !s[i],
    ensures
        count_true(s) == 0,
    decreases s.len(),
{
    if s.len() > 0 {
        lemma_count_true_none(s.drop_last());
    }
}

/// Setting a `false` entry to `true` adds one.
pub proof fn lemma_count_true_set(s: Seq<bool>, i: int)
    requires
        0 <= i < s.len(),
        !s[i],
    ensures
        count_true(s.update(i, true)) == count_true(s) + 1,
    decreases s.len(),
{
    let t = s.update(i, true);
    if i == s.len() - 1 {
        assert(t.drop_last() =~= s.drop_last());
    } else {
        assert(t.drop_last() =~= s.drop_last().update(i, true));
        lemma_count_true_set(s.drop_last(), i);
    }
}

} // verus!
