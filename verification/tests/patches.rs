use rapidmesh_tet::patches::build_patches;

type V3 = [f64; 3];

/// The unit cube's corners.
fn corners() -> Vec<V3> {
    let mut v = Vec::new();
    for z in 0..2 {
        for y in 0..2 {
            for x in 0..2 {
                v.push([x as f64, y as f64, z as f64]);
            }
        }
    }
    v
}

fn patches_of(pts: &[V3], tris: &[[u32; 3]], face_tags: &[u32], region_tags: &[[u32; 2]]) -> Vec<Vec<usize>> {
    let coplanar = |a: usize, b: usize| {
        let t = tris[a];
        tris[b].iter().all(|&v| {
            geometry_predicates::orient3d(pts[t[0] as usize], pts[t[1] as usize], pts[t[2] as usize], pts[v as usize]) == 0.0
        })
    };
    build_patches(tris, face_tags, region_tags, &coplanar)
}

#[test]
fn cube_faces_make_six_patches() {
    let pts = corners();
    // Two triangles per cube face (vertex id = x + 2y + 4z).
    let tris: Vec<[u32; 3]> = vec![
        [0, 2, 3], [0, 3, 1], // z = 0
        [4, 5, 7], [4, 7, 6], // z = 1
        [0, 1, 5], [0, 5, 4], // y = 0
        [2, 6, 7], [2, 7, 3], // y = 1
        [0, 4, 6], [0, 6, 2], // x = 0
        [1, 3, 7], [1, 7, 5], // x = 1
    ];
    let n = tris.len();
    let p = patches_of(&pts, &tris, &vec![0; n], &vec![[1, 0]; n]);
    assert_eq!(p, vec![vec![0, 1], vec![2, 3], vec![4, 5], vec![6, 7], vec![8, 9], vec![10, 11]]);
}

#[test]
fn tags_split_a_plane() {
    let pts = corners();
    let tris: Vec<[u32; 3]> = vec![[0, 2, 3], [0, 3, 1]];
    // Different face tags: two patches.
    assert_eq!(patches_of(&pts, &tris, &[0, 7], &[[1, 0], [1, 0]]), vec![vec![0], vec![1]]);
    // Different region pairs: two patches.
    assert_eq!(patches_of(&pts, &tris, &[0, 0], &[[1, 0], [2, 0]]), vec![vec![0], vec![1]]);
    // Same tags: one patch.
    assert_eq!(patches_of(&pts, &tris, &[0, 0], &[[1, 0], [1, 0]]), vec![vec![0, 1]]);
}

#[test]
fn coplanar_facets_need_a_shared_edge() {
    let mut pts = corners();
    pts.push([3.0, 0.0, 0.0]);
    pts.push([3.0, 1.0, 0.0]);
    pts.push([4.0, 0.0, 0.0]);
    // Both in z = 0, but apart: two patches, in order of their facets.
    let tris: Vec<[u32; 3]> = vec![[8, 10, 9], [0, 2, 3]];
    assert_eq!(patches_of(&pts, &tris, &[0, 0], &[[1, 0], [1, 0]]), vec![vec![0], vec![1]]);
}

#[test]
fn chain_of_facets_joins_transitively() {
    let mut pts = corners();
    pts.push([2.0, 0.0, 0.0]);
    pts.push([2.0, 1.0, 0.0]);
    // Three facets in z = 0 in a strip: 0-1 share (0,3), 1-2 share (1,3)...
    let tris: Vec<[u32; 3]> = vec![[0, 2, 3], [9, 3, 8], [0, 3, 1], [1, 3, 8]];
    assert_eq!(patches_of(&pts, &tris, &[5; 4], &[[1, 2]; 4]), vec![vec![0, 1, 2, 3]]);
    assert!(patches_of(&pts, &[], &[], &[]).is_empty());
}
