use rapidmesh_tet::conform::{FaceTag, RegionTag, SurfaceFace};
use rapidmesh_tet::mom::SurfaceMesh;

/// Unit square split into two same-tag right triangles sharing the diagonal (0,2).
fn square() -> SurfaceMesh {
    let face = |tri| SurfaceFace {
        tri,
        face_tag: FaceTag(7),
        regions: [RegionTag(0); 2],
        patch: 0,
        surface: 0,
    };
    SurfaceMesh { faces: vec![face([0, 1, 2]), face([0, 2, 3])] }
}

#[test]
fn square_mom() {
    let m = square();
    // 5 unique edges: 4 outer + the shared diagonal.
    let adj = m.edge_adjacency();
    assert_eq!(adj.edges.len(), 5);
    // The diagonal (0,2) is the only RWG edge (interior, same tag).
    let rwg = m.rwg_edges();
    assert_eq!(rwg.len(), 1);
    assert_eq!([rwg[0][0], rwg[0][1]], [0, 2]);
    // The 4 outer edges form the boundary.
    assert_eq!(m.boundary_edges().len(), 4);
}
