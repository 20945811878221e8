use rapidmesh_tet::conform::{FaceTag, RegionTag, SurfaceFace, SurfaceKind, TetMesh};

fn face(tri: [usize; 3], tag: u32, regions: [u32; 2], patch: u32, surface: u32) -> SurfaceFace {
    SurfaceFace {
        tri,
        face_tag: FaceTag(tag),
        regions: [RegionTag(regions[0]), RegionTag(regions[1])],
        patch,
        surface,
    }
}

fn mesh(faces: Vec<SurfaceFace>, surfaces: Vec<SurfaceKind>) -> TetMesh {
    let n = surfaces.len();
    TetMesh {
        tets: vec![],
        tet_regions: vec![],
        faces,
        surfaces,
        surface_owners: vec![0; n],
        abandoned_patches: vec![],
        plc_points: 0,
    }
}

#[test]
fn plane_patches_meet_at_a_crease() {
    let m = mesh(
        vec![
            face([0, 1, 2], 0, [1, 0], 0, 0),
            face([0, 2, 3], 0, [1, 0], 0, 0),
            face([1, 4, 2], 0, [1, 0], 1, 0),
        ],
        vec![SurfaceKind::Plane],
    );
    // (0,2) is interior to patch 0; (1,2) separates patches 0 and 1; the
    // rest are boundary edges with a single face.
    assert_eq!(m.feature_edges(), vec![[0, 1], [0, 3], [1, 2], [1, 4], [2, 3], [2, 4]]);
}

#[test]
fn curved_facet_seams_stay_smooth() {
    let m = mesh(
        vec![face([5, 6, 7], 0, [1, 0], 7, 0), face([5, 7, 8], 0, [1, 0], 8, 0)],
        vec![SurfaceKind::Cylinder],
    );
    // Different patches, but one curved surface: the seam (5,7) is smooth.
    assert_eq!(m.feature_edges(), vec![[5, 6], [5, 8], [6, 7], [7, 8]]);
}

#[test]
fn tags_and_regions_split_groups() {
    // A closed tetrahedron surface: every edge has two faces.
    let tri = [[0, 2, 1], [0, 1, 3], [1, 2, 3], [0, 3, 2]];
    let same: Vec<SurfaceFace> = tri.iter().map(|&t| face(t, 0, [1, 0], 0, 0)).collect();
    assert!(mesh(same, vec![SurfaceKind::Sphere]).feature_edges().is_empty());
    // Region pairs compare unordered: [0, 1] equals [1, 0].
    let mut flipped: Vec<SurfaceFace> = tri.iter().map(|&t| face(t, 0, [1, 0], 0, 0)).collect();
    flipped[3].regions = [RegionTag(0), RegionTag(1)];
    assert!(mesh(flipped, vec![SurfaceKind::Sphere]).feature_edges().is_empty());
    // A different face tag on the last face makes its three edges creases.
    let mut tagged: Vec<SurfaceFace> = tri.iter().map(|&t| face(t, 0, [1, 0], 0, 0)).collect();
    tagged[3].face_tag = FaceTag(9);
    assert_eq!(mesh(tagged, vec![SurfaceKind::Sphere]).feature_edges(), vec![[0, 2], [0, 3], [2, 3]]);
    // A different region pair does the same.
    let mut region: Vec<SurfaceFace> = tri.iter().map(|&t| face(t, 0, [1, 0], 0, 0)).collect();
    region[0].regions = [RegionTag(2), RegionTag(0)];
    assert_eq!(mesh(region, vec![SurfaceKind::Sphere]).feature_edges(), vec![[0, 1], [0, 2], [1, 2]]);
}

#[test]
fn non_manifold_edges_are_features() {
    // Three coplanar-patch faces on edge (0,1).
    let m = mesh(
        vec![
            face([0, 1, 2], 0, [1, 0], 0, 0),
            face([1, 0, 3], 0, [1, 0], 0, 0),
            face([0, 1, 4], 0, [1, 0], 0, 0),
        ],
        vec![SurfaceKind::Plane],
    );
    let fe = m.feature_edges();
    assert!(fe.contains(&[0, 1]));
    assert_eq!(fe.len(), 7);
}
