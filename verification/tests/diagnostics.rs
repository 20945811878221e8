use rapidmesh_tet::conform::{FaceTag, RegionTag, SurfaceFace, SurfaceKind, TetMesh};
use rapidmesh_tet::diagnostics::nonmanifold_edges;

fn mesh_of(tris: &[[usize; 3]]) -> TetMesh {
    let faces: Vec<SurfaceFace> = tris
        .iter()
        .map(|&tri| SurfaceFace {
            tri,
            face_tag: FaceTag(0),
            regions: [RegionTag(1), RegionTag(0)],
            patch: 0,
            surface: 0,
        })
        .collect();
    TetMesh {
        tets: vec![],
        tet_regions: vec![],
        faces,
        surfaces: vec![SurfaceKind::Plane],
        surface_owners: vec![0],
        abandoned_patches: vec![],
        plc_points: 0,
    }
}

#[test]
fn closed_tetrahedron_surface_is_watertight() {
    let m = mesh_of(&[[0, 2, 1], [0, 1, 3], [1, 2, 3], [0, 3, 2]]);
    assert!(nonmanifold_edges(&m).is_empty());
}

#[test]
fn open_square_reports_its_rim_once_each() {
    // Two triangles sharing the diagonal (0,2): the four rim edges have a
    // single face, the diagonal two.
    let m = mesh_of(&[[0, 1, 2], [0, 2, 3]]);
    assert_eq!(nonmanifold_edges(&m), vec![([0, 1], 1), ([0, 3], 1), ([1, 2], 1), ([2, 3], 1)]);
    // The rim edges are also feature edges of the mesh.
    let features = m.feature_edges();
    for (e, _) in nonmanifold_edges(&m) {
        assert!(features.contains(&e));
    }
}

#[test]
fn fin_on_a_closed_surface_is_non_manifold() {
    // A closed tetrahedron with an extra fin face on edge (0,1): that edge
    // has three faces; the fin's other two sides have one each.
    let m = mesh_of(&[[0, 2, 1], [0, 1, 3], [1, 2, 3], [0, 3, 2], [0, 1, 9]]);
    assert_eq!(nonmanifold_edges(&m), vec![([0, 1], 3), ([0, 9], 1), ([1, 9], 1)]);
}

#[test]
fn no_faces_no_defects() {
    assert!(nonmanifold_edges(&mesh_of(&[])).is_empty());
}
