# ormatex_sem_nd

Bookkeeping for a spectral-element (SEM) discretisation, verified with Verus.

- `src/mesh.rs` — physical regions, region selectors and mesh metadata; selection
  of cells and boundary facets by tag or by name.
- `src/dofs.rs` — reduced DOF numbering: Dirichlet elimination, periodic
  identification (1D endpoints, 2D facet pairs through union-find), inversion of
  nodal maps.
- `src/material.rs` — coefficients chosen per physical region.
- `src/kernels/` — field names of kernel families, composition of field lists,
  the field layouts of kernel sums and kernel sets (union fields and per-kernel
  maps), selection of boundary kernels per mesh entity, and the kernels whose
  configuration holds no numerical data.
- `src/op.rs` — row partitioning for parallel sparse products.
- `app/` — floating-point data and the parallel sparse operator (faer, rayon),
  which use the library for their index bookkeeping.
