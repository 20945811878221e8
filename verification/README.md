# rapidmesh_tet

The combinatorial core of a tetrahedral mesher, written in Verus: every
function under `src/` carries a `requires`/`ensures` contract that Verus
proves. Geometry enters only through exact-predicate oracles (orientation,
in-sphere, plane side, bounding-box overlap), passed in as closures whose
answers the contracts speak of.

- `src/` — the verified library:
  - `topology`, `ordering`, `fxmap`: tet-face tables, sorted simplex keys,
    sorting and tallying, the Fx-hashed maps (trusted wrappers over
    `rustc_hash`).
  - `delaunay`, `cavity`: the tet slab of incremental Delaunay
    tetrahedralization — point location, Bowyer-Watson cavity growth,
    cavity boundaries, re-filling, guarded-insert removal lists.
  - `surf2d`: the planar constrained Delaunay triangulation (point
    insertion with cavities and fans, flips, crossing walks, forced edges,
    Delaunay restoration). The contracts speak of the sign oracles only:
    forcing a segment ends with none of its walked or rescanned edges still
    crossing it unless the flip bound is hit, and restoration ends with
    every non-constraint edge settled unless the visit bound is hit; that
    the segment is then an edge is planar geometry the oracles do not
    carry.
  - `recover`, `cdt`, `chains`, `facets`, `cdt3`: facet and segment
    recovery — gift-wrapping, cavity re-tetrahedralization, segment chains,
    piercing sweeps, region classification.
  - `optimize`, `flips`: incidence upkeep and the 2-3 flip and edge-removal
    moves of the quality optimizer.
  - `conform`, `regions`, `patches`, `cvt`, `mom`, `diagnostics`: tagged
    surface meshes, feature edges, region flood fills, patch grouping,
    RWG edge adjacency and defect lists.
- `tests/`: tests on concrete inputs, with the exact predicates of
  `geometry-predicates` supplying the oracles.
- `app/`: the floating-point side (point positions, predicates, metrics)
  around the library.

## What is not here

The library holds the mesher's combinatorial kernels. The parts of the
mesher that decide by floating-point geometry, or that build on the
companion BREP/CSG/geometry crates of the same workspace, are not part of
this crate in any form:

- the quality optimizer driver (smoothing, flips and edge removal gated on
  dihedral angles) and the surface pass;
- the `mesh_plc` / `mesh_budgeted` / `mesh_refine` / `surface_mesh`
  pipeline, with Ruppert refinement, CVT filling and Dorfler marking;
- the segment- and facet-recovery drivers (`recover_segments`,
  `recover_faces`, `recover_plc`, `tetrahedralize_constrained`), which
  alternate cavity surgery on the builder with floating-point bounding-box
  snapshots; their decisions are the step functions `facets::facet_step`
  (one facet: skip, defer, clean, or the cavity and its refill) and
  `recover::recover_attempt` / `recover::grow_cavity_ring` (one attempt
  at a missing facet, and the growth of its cavity), with the kernels in
  `chains`, `facets`, `cdt` and `recover`;
- the sizing octree `DomainTree`, the facet BVH, size fields, sites and
  their carriers, surface charts and closest-point projections.

`app/` keeps only the floating-point glue that the kernels need: point
positions, exact predicates as closures, bounding boxes, quality statistics
and the planar and spatial builders that drive the verified kernels.
