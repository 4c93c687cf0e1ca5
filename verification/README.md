# graph-planarity

Planar graph algorithms with machine-checked contracts: planarity testing,
Kuratowski obstruction search, combinatorial embeddings and their faces,
dual graphs, and Euler's formula.

Every function in `src/` is verified with Verus against a mathematical model
of the graph: `Graph` is viewed as a sequence of adjacency lists
(`Seq<Seq<usize>>`), and each result is stated over spec functions of that
view.

## Layout

- `src/lib.rs`: `Graph`, its edge list and well-formedness, and laws of
  `add_edge`.
- `src/rotation.rs`: rotation systems and planarity: a graph is planar
  when some rotation system's face walks meet Euler's formula; an
  exhaustive search finds the first such rotation system or shows there is
  none.
- `src/euler_bound.rs`: a connected planar graph on at least three vertices
  has at most `3n - 6` edges, which lets the search stop at once on dense
  graphs.
- `src/planarity.rs`: `is_planar`, its reasons, and `simple_embedding`.
- `src/kuratowski.rs`: non-planarity, and K5 and K3,3 subgraph search on
  graphs of any size.
- `src/embedding.rs`: planar embeddings, their validity, rotation systems
  and face tracing.
- `src/face_walks.rs`: for embeddings whose lists are symmetric and repeat no
  entry, the traced faces are the orbits of darts.
- `src/dual.rs`: dual graphs built from the faces, with every shared edge
  mapped to its pair of faces, and self-duality by isomorphism.
- `src/euler.rs`: Euler's formula, edge bounds, components, bipartiteness.
- `src/counting.rs`: each edge is listed once, at most `n(n-1)/2` edges, at
  least `n - C` edges for `C` components, and the handshake law.
- `src/paths.rs`, `src/text.rs`: reachability, and decimal rendering for
  messages.
- `tests/`: the test suite, run against the compiled library.
