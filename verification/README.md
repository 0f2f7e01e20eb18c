# cadkernel

The integer and structural core of a browser CAD kernel, verified with Verus.

`src/` is the verified library:

- `hit` — the index that lays jobs of shapes end to end for the intersection
  tester: which pairs to test (within a job, across two groups, or from each
  group to every later one), where each flattened shape comes from, and how the
  tester's hits and misses are routed back to one score per shape; `hit::hone`
  matches the samples of the two shapes of each tested pair.
- `mesh` — grid triangulation, joining face meshes with re-based indices, and
  turning triangles over.
- `boundary` — the walk that joins trim boundaries into closed loops.
- `trim` — which pieces of a shape trimming keeps, hit by hit.
- `shape` — shapes of a model sorted by kind and part; highest rank and the
  shapes of a given rank.
- `nurbs` — sample counts, valid order and weights, knot-count check and the
  open (clamped) knot vector.
- `grid_pattern` — copy counts, gaps and the order of the copies of a grid
  pattern.
- `texture`, `digest` — texture padding and the coordinate digest.

`app/` holds what Verus does not see: WebGL, floating-point geometry, NURBS
evaluation, tessellation with `lyon`, and the JavaScript-facing data types.
