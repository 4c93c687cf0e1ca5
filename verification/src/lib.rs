//! Planar graph algorithms: planarity testing, Kuratowski obstruction
//! search, combinatorial embeddings, dual graphs and Euler's formula.
//!
//! - [`planarity`]: planarity testing
//! - [`rotation`]: rotation systems, planarity, and the exact search
//! - [`euler_bound`]: Euler's bound `e <= 3n - 6` for planar graphs
//! - [`kuratowski`]: K5 and K3,3 detection
//! - [`embedding`]: combinatorial embeddings and their faces
//! - [`dual`]: dual graphs of embeddings
//! - [`euler`]: Euler's formula, face counts and components
//! - [`paths`]: walks and reachability, the model behind the searches
//! - [`text`]: decimal rendering used in diagnostic messages

use vstd::prelude::*;

pub mod counting;
pub mod dual;
pub mod embedding;
pub mod euler;
pub mod euler_bound;
pub mod face_walks;
pub mod kuratowski;
pub mod paths;
pub mod planarity;
pub mod rotation;
pub mod text;
pub mod triangulation;

verus! {

/// Well-formed adjacency lists over the vertices `0..a.len()`: every entry
/// is a vertex, no list repeats an entry, and adjacency is symmetric.
pub open spec fn adj_wf(a: Seq<Seq<usize>>) -> bool {
    &&& forall|u: int, i: int|
        #![trigger a[u][i]]
        0 <= u < a.len() && 0 <= i < a[u].len() ==> a[u][i] < a.len()
    &&& forall|u: int| #![trigger a[u]] 0 <= u < a.len() ==> a[u].no_duplicates()
    &&& forall|u: int, v: usize|
        #![trigger a[u].contains(v)]
        0 <= u < a.len() && a[u].contains(v) ==> a[v as int].contains(u as usize)
}

/// The adjacency lists after adding the undirected edge `{u, v}`: `v` is
/// appended to the list of `u` unless present, then `u` to the list of `v`
/// unless present or `u == v`.
pub open spec fn add_edge_spec(a: Seq<Seq<usize>>, u: usize, v: usize) -> Seq<Seq<usize>> {
    let a1 = if a[u as int].contains(v) {
        a
    } else {
        a.update(u as int, a[u as int].push(v))
    };
    if u != v && !a1[v as int].contains(u) {
        a1.update(v as int, a1[v as int].push(u))
    } else {
        a1
    }
}

/// The pairs `(u, v)` with `u < v` contributed by the list of vertex `u`,
/// in list order.
pub open spec fn vertex_edges(a: Seq<Seq<usize>>, u: int) -> Seq<(usize, usize)> {
    a[u].filter_map(edge_from(u))
}

/// The pair `(u, v)` when `u < v`.
pub open spec fn edge_from(u: int) -> spec_fn(usize) -> Option<(usize, usize)> {
    |v: usize| if u < v { Some((u as usize, v)) } else { None }
}

/// The edges contributed by vertices `0..k`, vertex by vertex.
pub open spec fn edges_upto(a: Seq<Seq<usize>>, k: int) -> Seq<(usize, usize)>
    decreases k,
{
    if k <= 0 {
        Seq::empty()
    } else {
        edges_upto(a, k - 1) + vertex_edges(a, k - 1)
    }
}

/// All edges `(u, v)` with `u < v`, ordered by `u` and then by the list of `u`.
pub open spec fn edge_list(a: Seq<Seq<usize>>) -> Seq<(usize, usize)> {
    edges_upto(a, a.len() as int)
}

/// The number of edges (self-loops are not counted).
pub open spec fn num_edges(a: Seq<Seq<usize>>) -> nat {
    edge_list(a).len()
}

/// The largest list length among vertices `0..k` (0 when `k == 0`).
pub open spec fn max_degree_upto(a: Seq<Seq<usize>>, k: int) -> nat
    decreases k,
{
    if k <= 0 {
        0
    } else {
        let m = max_degree_upto(a, k - 1);
        if a[k - 1].len() > m {
            a[k - 1].len()
        } else {
            m
        }
    }
}

pub(crate) proof fn lemma_filter_edge_from_contains(l: Seq<usize>, u: int, x: usize, y: usize)
    requires
        0 <= u <= usize::MAX,
    ensures
        l.filter_map(edge_from(u)).contains((x, y)) <==> (x as int == u && u < y && l.contains(y)),
    decreases l.len(),
{
    if l.len() > 0 {
        let rest = l.drop_last();
        lemma_filter_edge_from_contains(rest, u, x, y);
        assert(l =~= rest.push(l.last()));
        let fr = rest.filter_map(edge_from(u));
        let f = l.filter_map(edge_from(u));
        if u < l.last() {
            assert(f == fr + seq![(u as usize, l.last())]);
            if f.contains((x, y)) {
                let i = choose|i: int| 0 <= i < f.len() && f[i] == (x, y);
                if i < fr.len() {
                    assert(fr[i] == (x, y));
                } else {
                    assert(l[l.len() - 1] == y);
                }
            }
            if x as int == u && u < y && l.contains(y) {
                let i = choose|i: int| 0 <= i < l.len() && l[i] == y;
                if i < rest.len() {
                    assert(rest[i] == y);
                    let k = choose|k: int| 0 <= k < fr.len() && fr[k] == (x, y);
                    assert(f[k] == (x, y));
                } else {
                    assert(f[fr.len() as int] == (x, y));
                }
            }
        } else {
            assert(f == fr);
            if x as int == u && u < y && l.contains(y) {
                let i = choose|i: int| 0 <= i < l.len() && l[i] == y;
                if i == rest.len() {
                    assert(l[i] == l.last());
                } else {
                    assert(rest[i] == y);
                }
            }
            if fr.contains((x, y)) {
                let i = choose|i: int| 0 <= i < rest.len() && rest[i] == y;
                assert(l[i] == y);
            }
        }
    }
}

pub(crate) proof fn lemma_edges_upto_contains(a: Seq<Seq<usize>>, k: int, x: usize, y: usize)
    requires
        0 <= k <= a.len(),
        a.len() <= usize::MAX + 1,
    ensures
        edges_upto(a, k).contains((x, y)) <==> ((x as int) < k && x < y && a[x as int].contains(y)),
    decreases k,
{
    if k > 0 {
        lemma_edges_upto_contains(a, k - 1, x, y);
        lemma_filter_edge_from_contains(a[k - 1], k - 1, x, y);
        let p = edges_upto(a, k - 1);
        let q = vertex_edges(a, k - 1);
        assert(edges_upto(a, k) == p + q);
        if (p + q).contains((x, y)) {
            let i = choose|i: int| 0 <= i < (p + q).len() && (p + q)[i] == (x, y);
            if i < p.len() {
                assert(p[i] == (x, y));
            } else {
                assert(q[i - p.len()] == (x, y));
            }
        }
        if p.contains((x, y)) {
            let i = choose|i: int| 0 <= i < p.len() && p[i] == (x, y);
            assert((p + q)[i] == (x, y));
        }
        if q.contains((x, y)) {
            let i = choose|i: int| 0 <= i < q.len() && q[i] == (x, y);
            assert((p + q)[p.len() + i] == (x, y));
        }
    }
}

/// The edge list holds exactly the adjacent pairs `(x, y)` with `x < y`.
pub proof fn lemma_edge_list_contains(a: Seq<Seq<usize>>, x: usize, y: usize)
    requires
        a.len() <= usize::MAX + 1,
    ensures
        edge_list(a).contains((x, y)) <==> ((x as int) < a.len() && x < y && a[x as int].contains(y)),
{
    lemma_edges_upto_contains(a, a.len() as int, x, y);
}

/// Adding the edge `{u, v}`: each endpoint then lists the other, no other
/// list changes, no entry is lost, the edge list gains exactly the pair
/// `{u, v}` (none for a self-loop), and adding the same edge again changes
/// nothing.
pub proof fn lemma_add_edge_effect(a: Seq<Seq<usize>>, u: usize, v: usize, x: usize, y: usize)
    requires
        u < a.len(),
        v < a.len(),
        a.len() <= usize::MAX,
    ensures
        add_edge_spec(a, u, v).len() == a.len(),
        add_edge_spec(a, u, v)[u as int].contains(v),
        add_edge_spec(a, u, v)[v as int].contains(u),
        forall|w: int| 0 <= w < a.len() && w != u && w != v ==> add_edge_spec(a, u, v)[w] == a[w],
        forall|w: int, z: usize| 0 <= w < a.len() && a[w].contains(z) ==> add_edge_spec(a, u, v)[w].contains(z),
        add_edge_spec(add_edge_spec(a, u, v), u, v) == add_edge_spec(a, u, v),
        adj_wf(a) ==> (edge_list(add_edge_spec(a, u, v)).contains((x, y)) <==> (edge_list(a).contains((x, y))
            || (u != v && (x, y) == (if u < v { (u, v) } else { (v, u) })))),
{
    let b = add_edge_spec(a, u, v);
    let a1 = if a[u as int].contains(v) {
        a
    } else {
        a.update(u as int, a[u as int].push(v))
    };
    assert(a1[u as int].contains(v)) by {
        if !a[u as int].contains(v) {
            assert(a1[u as int][a[u as int].len() as int] == v);
        }
    }
    assert forall|w: int, z: usize| 0 <= w < a.len() && a[w].contains(z) implies b[w].contains(z) by {
        let i = choose|i: int| 0 <= i < a[w].len() && a[w][i] == z;
        assert(a1[w][i] == z);
        assert(b[w][i] == z);
    }
    assert forall|w: int, z: usize| 0 <= w < a.len() && a1[w].contains(z) implies b[w].contains(z) by {
        let i = choose|i: int| 0 <= i < a1[w].len() && a1[w][i] == z;
        assert(b[w][i] == z);
    }
    assert(b[v as int].contains(u)) by {
        if u != v && !a1[v as int].contains(u) {
            assert(b[v as int][a1[v as int].len() as int] == u);
        }
    }
    assert(add_edge_spec(b, u, v) == b);
    if adj_wf(a) {
        lemma_edge_list_contains(a, x, y);
        lemma_edge_list_contains(b, x, y);
        if (x as int) < a.len() && b[x as int].contains(y) && !a[x as int].contains(y) {
            let i = choose|i: int| 0 <= i < b[x as int].len() && b[x as int][i] == y;
            if i < a1[x as int].len() {
                assert(a1[x as int][i] == y);
                if x != u {
                    assert(a1[x as int] == a[x as int]);
                }
            }
        }
    }
}

/// The maximum degree bounds every vertex's degree and, when there is a
/// vertex, is the degree of one of them.
pub proof fn lemma_max_degree_bounds(a: Seq<Seq<usize>>, k: int)
    requires
        0 <= k <= a.len(),
    ensures
        forall|v: int| 0 <= v < k ==> a[v].len() <= max_degree_upto(a, k),
        k > 0 ==> exists|v: int| 0 <= v < k && a[v].len() == max_degree_upto(a, k),
    decreases k,
{
    if k > 0 {
        lemma_max_degree_bounds(a, k - 1);
        if k > 1 && a[k - 1].len() <= max_degree_upto(a, k - 1) {
            let v = choose|v: int| 0 <= v < k - 1 && a[v].len() == max_degree_upto(a, k - 1);
            assert(a[v].len() == max_degree_upto(a, k));
        } else {
            assert(a[k - 1].len() == max_degree_upto(a, k));
        }
    }
}

/// Linear search in a list of vertices.
pub fn list_contains(l: &[usize], x: usize) -> (r: bool)
    ensures
        r == l@.contains(x),
{
    let mut i: usize = 0;
    while i < l.len()
        invariant
            i <= l@.len(),
            forall|j: int| 0 <= j < i ==> l@[j] != x,
        decreases l@.len() - i,
    {
        if l[i] == x {
            assert(l@[i as int] == x);
            return true;
        }
        i = i + 1;
    }
    false
}

/// A graph for planarity algorithms.
#[derive(Clone, Debug)]
pub struct Graph {
    n: usize,
    adj: Vec<Vec<usize>>,
}

impl View for Graph {
    type V = Seq<Seq<usize>>;

    closed spec fn view(&self) -> Seq<Seq<usize>> {
        self.adj@.map_values(|l: Vec<usize>| l@)
    }
}

impl Graph {
    /// The vertex count agrees with the adjacency lists.
    pub closed spec fn shape_ok(&self) -> bool {
        self.n == self.adj@.len()
    }

    /// The graph's invariant: the count matches the lists, and the lists
    /// are well formed.
    pub open spec fn wf(&self) -> bool {
        self.shape_ok() && adj_wf(self@)
    }

    /// Create a new graph with `n` vertices.
    pub fn new(n: usize) -> (g: Self)
        ensures
            g.wf(),
            g@ == Seq::new(n as nat, |i: int| Seq::<usize>::empty()),
    {
        let mut adj: Vec<Vec<usize>> = Vec::new();
        let mut i: usize = 0;
        while i < n
            invariant
                i <= n,
                adj@.len() == i,
                forall|j: int| 0 <= j < i ==> (#[trigger] adj@[j])@ == Seq::<usize>::empty(),
            decreases n - i,
        {
            adj.push(Vec::new());
            i = i + 1;
        }
        let g = Graph { n, adj };
        assert(g@ =~= Seq::new(n as nat, |i: int| Seq::<usize>::empty()));
        g
    }

    /// Number of vertices.
    pub fn vertex_count(&self) -> (r: usize)
        requires
            self.wf(),
        ensures
            r == self@.len(),
    {
        self.n
    }

    /// Add an undirected edge.
    pub fn add_edge(&mut self, u: usize, v: usize)
        requires
            old(self).wf(),
            u < old(self)@.len(),
            v < old(self)@.len(),
        ensures
            final(self).wf(),
            final(self)@ == add_edge_spec(old(self)@, u, v),
    {
        let ghost a = self@;
        if !list_contains(self.adj[u].as_slice(), v) {
            self.adj[u].push(v);
        }
        let ghost a1 = self@;
        assert(a1 =~= (if a[u as int].contains(v) {
            a
        } else {
            a.update(u as int, a[u as int].push(v))
        }));
        if u != v && !list_contains(self.adj[v].as_slice(), u) {
            self.adj[v].push(u);
        }
        assert(self@ =~= add_edge_spec(a, u, v));
        proof {
            let b = self@;
            assert forall|x: int, i: int| 0 <= x < b.len() && 0 <= i < b[x].len() implies b[x][i]
                < b.len() by {
                if i < a[x].len() {
                    assert(b[x][i] == a[x][i]);
                }
            }
            assert forall|x: int| 0 <= x < b.len() implies b[x].no_duplicates() by {
                assert(a[x].no_duplicates());
            }
            assert forall|x: int, y: usize| 0 <= x < b.len() && b[x].contains(y) implies b[
                y as int].contains(x as usize) by {
                let i = choose|i: int| 0 <= i < b[x].len() && b[x][i] == y;
                if i < a[x].len() {
                    assert(a[x][i] == y);
                    assert(a[x].contains(y));
                    assert(a[y as int].contains(x as usize));
                    let k = choose|k: int| 0 <= k < a[y as int].len() && a[y as int][k] == x;
                    assert(b[y as int][k] == x);
                } else {
                    if x == u as int {
                        assert(y == v);
                        assert(!a[u as int].contains(v));
                        if u != v {
                            assert(!a[v as int].contains(u)) by {
                                if a[v as int].contains(u) {
                                    assert(a[u as int].contains(v));
                                }
                            }
                            assert(b[v as int].last() == u);
                        }
                    } else {
                        assert(x == v as int);
                        assert(y == u);
                        if a[u as int].contains(v) {
                            assert(a[v as int].contains(u));
                        } else {
                            assert(b[u as int].last() == v);
                        }
                        assert(b[u as int].contains(v));
                    }
                }
            }
        }
    }

    /// Check if edge (u, v) exists.
    pub fn has_edge(&self, u: usize, v: usize) -> (r: bool)
        requires
            self.wf(),
            u < self@.len(),
        ensures
            r == self@[u as int].contains(v),
    {
        list_contains(self.adj[u].as_slice(), v)
    }

    /// Get neighbors.
    pub fn neighbors(&self, v: usize) -> (r: &[usize])
        requires
            self.wf(),
            v < self@.len(),
        ensures
            r@ == self@[v as int],
    {
        self.adj[v].as_slice()
    }

    /// Get the degree.
    pub fn degree(&self, v: usize) -> (r: usize)
        requires
            self.wf(),
            v < self@.len(),
        ensures
            r == self@[v as int].len(),
    {
        self.adj[v].len()
    }

    /// Get all edges (u, v) with u < v.
    pub fn edges(&self) -> (r: Vec<(usize, usize)>)
        requires
            self.wf(),
        ensures
            r@ == edge_list(self@),
    {
        let ghost a = self@;
        let mut edges: Vec<(usize, usize)> = Vec::new();
        let mut u: usize = 0;
        while u < self.n
            invariant
                self.wf(),
                a == self@,
                u <= a.len(),
                edges@ == edges_upto(a, u as int),
            decreases a.len() - u,
        {
            let list = self.adj[u].as_slice();
            let ghost f = edge_from(u as int);
            let mut j: usize = 0;
            while j < list.len()
                invariant
                    u < a.len(),
                    f == edge_from(u as int),
                    list@ == a[u as int],
                    j <= list@.len(),
                    edges@ == edges_upto(a, u as int) + list@.take(j as int).filter_map(f),
                decreases list@.len() - j,
            {
                let v = list[j];
                assert(list@.take(j + 1).drop_last() =~= list@.take(j as int));
                if u < v {
                    edges.push((u, v));
                }
                proof {
                    let t = list@.take(j + 1);
                    assert(t.last() == v);
                    assert(t.len() > 0);
                    assert(f(v) == (if u < v { Some((u as usize, v)) } else { None }));
                    assert(t.filter_map(f) == t.drop_last().filter_map(f) + (if u < v {
                        seq![(u, v)]
                    } else {
                        Seq::<(usize, usize)>::empty()
                    }));
                }
                assert(edges@ =~= edges_upto(a, u as int) + list@.take(j + 1).filter_map(f));
                j = j + 1;
            }
            assert(list@.take(j as int) =~= list@);
            assert(edges_upto(a, u + 1) == edges_upto(a, u as int) + vertex_edges(a, u as int));
            u = u + 1;
        }
        edges
    }

    /// Number of edges.
    pub fn edge_count(&self) -> (r: usize)
        requires
            self.wf(),
        ensures
            r == num_edges(self@),
    {
        self.edges().len()
    }

    /// Maximum degree.
    pub fn max_degree(&self) -> (r: usize)
        requires
            self.wf(),
        ensures
            r == max_degree_upto(self@, self@.len() as int),
    {
        let mut best: usize = 0;
        let mut v: usize = 0;
        while v < self.n
            invariant
                self.wf(),
                v <= self@.len(),
                best == max_degree_upto(self@, v as int),
            decreases self@.len() - v,
        {
            let d = self.degree(v);
            if d > best {
                best = d;
            }
            v = v + 1;
        }
        best
    }

    /// Get the adjacency list.
    pub fn adjacency(&self) -> (r: &[Vec<usize>])
        requires
            self.wf(),
        ensures
            r@.map_values(|l: Vec<usize>| l@) == self@,
    {
        self.adj.as_slice()
    }
}

} // verus!
