//! Combinatorial core of a tetrahedral mesher, with every algorithm proved
//! against its contract: tet-face tables and face orientation, sorted
//! simplex keys, the tet slab of an incremental Delaunay tetrahedralization
//! (point location, Bowyer-Watson cavity growth, boundary extraction,
//! re-filling and the removal list of a guarded insert), the planar
//! constrained Delaunay triangulation (cavities, fans, flips, forced
//! edges), segment-chain and facet recovery bookkeeping, gift-wrapping of
//! cavities, region flood fills, patch grouping, the optimizer's flip
//! moves and incidence upkeep, surface edge adjacency for method-of-moments
//! (RWG) bases, and feature-edge and defect extraction from a tagged
//! surface mesh. Geometry enters only through exact-predicate oracles.
pub mod topology;
pub mod fxmap;
pub mod ordering;
pub mod conform;
pub mod regions;
pub mod mom;
pub mod recover;
pub mod optimize;
pub mod cdt;
pub mod diagnostics;
pub mod delaunay;
pub mod cavity;
pub mod surf2d;
pub mod cdt3;
pub mod cvt;
pub mod patches;
pub mod flips;
pub mod chains;
pub mod facets;
