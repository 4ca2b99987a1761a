# torus

An observer-independent voxel scene (System 1) and an observer that looks at
it through depth maps (System 2). System 1 holds a solid torus in a voxel
grid, lights it with a photon map, and computes the Z₂ homology of its
cubical complex, checking ∂∘∂ = 0. System 2 renders depth maps and tries to
recover β₁ = 1, the hole, by thresholding them and counting interior holes.

## Layout

- `src/` — the verified library (Verus).
  - `universe/gf2.rs` — linear algebra over Z₂: columns as sets of rows,
    span, rank, column reductions, the rank inequality that keeps Betti
    numbers non-negative, and why the rank depends only on the span.
  - `universe/cubical.rs` — the cubical complex of a set of voxels, its
    boundary operators ∂₁, ∂₂, ∂₃, and the proofs of ∂₁∘∂₂ = 0 and ∂₂∘∂₃ = 0.
  - `universe/topology.rs` — numbering the cells, building the boundary
    matrices, column reduction, the ∂∘∂ check and the Betti numbers.
  - `universe/invariance.rs` — the Betti numbers do not depend on the order
    of the voxels or on repeats.
  - `universe/translation.rs` — nor on moving all voxels by one offset.
  - `universe/grid.rs` — the voxel grid: solid cells, materials, and their
    listing in index order.
  - `universe/photon.rs` — the hash grid of the photon map: binning photons
    and listing the cells under a query box.
  - `observer/depth_topology.rs` — connected components of binary images,
    interior holes, and 0-dimensional persistence of sublevel sets.
  - `observer/union_find.rs` — union–find with path compression and union by
    rank, and why its trees are the connected components.
- `app/` — the program: floating-point geometry (signed distance functions,
  ray marching, cameras, photon tracing), image output and the command line.
- `tests/` — tests of the library.
