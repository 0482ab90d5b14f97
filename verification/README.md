# spectral_clustering

Spectral clustering of weighted undirected graphs, split into a verified
library and the floating-point code around it.

`src/` (verified with Verus) holds the exact, integer-valued parts:

- `distances`: all-pairs hop distances (Floyd-Warshall), proved to be the
  fewest edges of any walk, `n` for unreachable pairs; symmetry and the
  triangle inequality as lemmas.
- `matrix`: a generic row-major `Matrix<T>` (`new`, `at`, `set`,
  `symmetrize`, `is_symmetric`, `mirror_average`), the exact square-side
  check, edge accumulation, row splitting and column selection.
- `partition`: grouping k-means labels into clusters (with the partition
  law), the k-means shortcut cases, the single-cluster case, membership.
- `silhouette`: each node's cluster and its distance sums and counts.
- `method`: the names of the clustering methods.

`app/` holds what works on `f64`: the graph object `SpectralCluster`, the
Jacobi eigen decomposition, k-means (with `rand`), Laplacians, modularity,
conductance and the silhouette formula.
