use rapidmesh_tet::cvt::group_boundary_edges;

#[test]
fn square_tile_boundary_skips_the_diagonal() {
    let tris = [[0u32, 1, 2], [0, 2, 3], [7, 8, 9]];
    assert_eq!(group_boundary_edges(&tris, &[0, 1]), vec![[0, 1], [0, 3], [1, 2], [2, 3]]);
    // Only the members count: the third facet is not part of the tile.
    assert_eq!(group_boundary_edges(&tris, &[2]), vec![[7, 8], [7, 9], [8, 9]]);
}

#[test]
fn closed_group_has_no_boundary() {
    let tris = [[0u32, 2, 1], [0, 1, 3], [1, 2, 3], [0, 3, 2]];
    assert!(group_boundary_edges(&tris, &[0, 1, 2, 3]).is_empty());
    assert!(group_boundary_edges(&tris, &[]).is_empty());
}

#[test]
fn repeated_member_cancels_its_own_sides() {
    // A facet listed twice has every side twice: no boundary.
    let tris = [[4u32, 5, 6]];
    assert!(group_boundary_edges(&tris, &[0, 0]).is_empty());
}
