use rapidmesh_tet::conform::{FaceTag, RegionTag, SurfaceFace, SurfaceKind, TetMesh};
use rapidmesh_tet::optimize::{
    append_tets, cavity_boundary_faces, compact_alive, face_entries_of, face_group, insertion_cavity, owners_of, split_owner_tets,
    update_incidence,
};
use rustc_hash::FxHashSet;

#[test]
fn incidence_follows_a_rewrite() {
    // Slot 0 = [0,1,2,3] is rewritten to [0,1,2,4].
    let mut g: Vec<Vec<u32>> = vec![vec![0, 1], vec![0], vec![2, 0], vec![5, 0, 7], vec![1]];
    update_incidence(&mut g, 0, [0, 1, 2, 3], [0, 1, 2, 4]);
    // Kept vertices keep their lists.
    assert_eq!(g[0], vec![0, 1]);
    assert_eq!(g[1], vec![0]);
    assert_eq!(g[2], vec![2, 0]);
    // The dropped vertex loses the slot (swap-remove: last moves in).
    assert_eq!(g[3], vec![5, 7]);
    // The gained vertex gets the slot appended.
    assert_eq!(g[4], vec![1, 0]);
}

#[test]
fn incidence_unchanged_by_a_reordering() {
    let mut g: Vec<Vec<u32>> = vec![vec![3], vec![3], vec![3], vec![3]];
    update_incidence(&mut g, 3, [0, 1, 2, 3], [1, 0, 3, 2]);
    assert_eq!(g, vec![vec![3], vec![3], vec![3], vec![3]]);
}

fn face(tri: [usize; 3], patch: u32, surface: u32) -> SurfaceFace {
    SurfaceFace { tri, face_tag: FaceTag(0), regions: [RegionTag(1), RegionTag(0)], patch, surface }
}

#[test]
fn smooth_groups_split_planes_by_patch() {
    let mesh = TetMesh {
        tets: vec![],
        tet_regions: vec![],
        faces: vec![face([0, 1, 2], 4, 0), face([1, 2, 3], 9, 1), face([2, 3, 4], 5, 1)],
        surfaces: vec![SurfaceKind::Plane, SurfaceKind::Cylinder],
        surface_owners: vec![0, 0],
        abandoned_patches: vec![],
        plc_points: 0,
    };
    assert_eq!(face_group(&mesh, 0), (0, 4));
    assert_eq!(face_group(&mesh, 1), (1, 1));
    // Two faces on one curved surface share a group whatever their patch.
    assert_eq!(face_group(&mesh, 2), face_group(&mesh, 1));
}

#[test]
fn compaction_keeps_live_tets_in_order() {
    let mut mesh = TetMesh {
        tets: vec![[0, 1, 2, 3], [1, 2, 3, 4], [2, 3, 4, 5], [3, 4, 5, 6]],
        tet_regions: vec![RegionTag(1), RegionTag(2), RegionTag(3), RegionTag(4)],
        faces: vec![],
        surfaces: vec![],
        surface_owners: vec![],
        abandoned_patches: vec![],
        plc_points: 0,
    };
    compact_alive(&mut mesh, &[true, false, true, false]);
    assert_eq!(mesh.tets, vec![[0, 1, 2, 3], [2, 3, 4, 5]]);
    assert_eq!(mesh.tet_regions, vec![RegionTag(1), RegionTag(3)]);
}

#[test]
fn appended_tets_join_their_vertex_lists() {
    let mut tets = vec![[0usize, 1, 2, 3]];
    let mut regions = vec![RegionTag(1)];
    let mut alive = vec![false];
    let mut g: Vec<Vec<u32>> = vec![vec![0], vec![0], vec![0], vec![0], vec![], vec![]];
    let added = [([1usize, 2, 3, 4], RegionTag(2)), ([2usize, 3, 4, 5], RegionTag(2))];
    append_tets(&mut tets, &mut regions, &mut alive, &mut g, &added);
    assert_eq!(tets, vec![[0, 1, 2, 3], [1, 2, 3, 4], [2, 3, 4, 5]]);
    assert_eq!(regions, vec![RegionTag(1), RegionTag(2), RegionTag(2)]);
    assert_eq!(alive, vec![false, true, true]);
    assert_eq!(g, vec![vec![0], vec![0, 1], vec![0, 1, 2], vec![0, 1, 2], vec![1, 2], vec![2]]);
}

#[test]
fn face_split_replaces_one_face_vertex_per_tet() {
    let r = split_owner_tets([7, 1, 2, 3], [1, 2, 3], 9);
    assert_eq!(r, [[7, 9, 2, 3], [7, 1, 9, 3], [7, 1, 2, 9]]);
}

#[test]
fn owners_are_the_run_of_the_key() {
    let entries = [([0, 1, 2], 4u32), ([0, 1, 3], 1), ([0, 1, 3], 7), ([1, 2, 3], 0)];
    assert_eq!(owners_of(&entries, [0, 1, 3]), (1, 3));
    assert_eq!(owners_of(&entries, [0, 1, 2]), (0, 1));
    assert_eq!(owners_of(&entries, [0, 2, 2]), (3, 3));
    assert_eq!(owners_of(&entries, [5, 5, 5]), (4, 4));
    assert_eq!(owners_of(&[], [0, 0, 0]), (0, 0));
}

fn tet_mesh(tets: Vec<[usize; 4]>, regions: Vec<u32>) -> TetMesh {
    TetMesh {
        tet_regions: regions.into_iter().map(RegionTag).collect(),
        tets,
        faces: vec![],
        surfaces: vec![],
        surface_owners: vec![],
        abandoned_patches: vec![],
        plc_points: 0,
    }
}

/// Every face of every tet as (sorted key, owner), sorted.
fn face_entries(tets: &[[usize; 4]]) -> Vec<([usize; 3], u32)> {
    let mut e = Vec::new();
    for (ti, t) in tets.iter().enumerate() {
        for i in 0..4 {
            let mut f: Vec<usize> = (0..4).filter(|&k| k != i).map(|k| t[k]).collect();
            f.sort();
            e.push(([f[0], f[1], f[2]], ti as u32));
        }
    }
    e.sort();
    e
}

#[test]
fn insertion_cavity_takes_live_same_region_neighbors() {
    let tets = vec![[0, 1, 2, 3], [1, 2, 3, 4], [0, 1, 2, 5], [0, 1, 3, 6], [0, 2, 3, 7]];
    let mesh = tet_mesh(tets.clone(), vec![1, 1, 1, 2, 1]);
    let entries = face_entries(&tets);
    let mut constrained: FxHashSet<[usize; 3]> = FxHashSet::default();
    constrained.insert([0, 1, 2]);
    let alive = [true, true, true, true, false];
    assert_eq!(insertion_cavity(&mesh, &alive, &entries, &constrained, 0), vec![0, 1]);
    let none: FxHashSet<[usize; 3]> = FxHashSet::default();
    assert_eq!(insertion_cavity(&mesh, &[true; 5], &entries, &none, 0), vec![0, 1, 2, 4]);
}

#[test]
fn cavity_boundary_is_the_unshared_faces_by_key() {
    let mesh = tet_mesh(vec![[0, 1, 2, 3], [1, 2, 3, 4]], vec![1, 1]);
    let none: FxHashSet<[usize; 3]> = FxHashSet::default();
    assert_eq!(
        cavity_boundary_faces(&mesh, &[0, 1], &none),
        Some(vec![[0, 1, 2], [0, 3, 1], [0, 2, 3], [1, 4, 2], [1, 3, 4], [2, 4, 3]])
    );
    let mut constrained: FxHashSet<[usize; 3]> = FxHashSet::default();
    constrained.insert([1, 2, 3]);
    assert_eq!(cavity_boundary_faces(&mesh, &[0, 1], &constrained), None);
    // A constrained boundary face does not veto.
    let mut outer: FxHashSet<[usize; 3]> = FxHashSet::default();
    outer.insert([0, 1, 2]);
    assert_eq!(cavity_boundary_faces(&mesh, &[0], &outer), Some(vec![[0, 1, 2], [0, 3, 1], [0, 2, 3], [1, 3, 2]]));
}

#[test]
fn face_entries_are_every_listed_face_sorted_by_key() {
    let tets = vec![[0, 1, 2, 3], [1, 2, 3, 4], [4, 2, 1, 5]];
    let all = face_entries_of(&tets, &[0, 1, 2]);
    assert_eq!(all, face_entries(&tets));
    assert_eq!(all.len(), 12);
    let only: Vec<([usize; 3], u32)> = face_entries_of(&tets, &[1]);
    assert_eq!(only, vec![([1, 2, 3], 1), ([1, 2, 4], 1), ([1, 3, 4], 1), ([2, 3, 4], 1)]);
    assert!(face_entries_of(&tets, &[]).is_empty());
}
