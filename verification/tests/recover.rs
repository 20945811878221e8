use rapidmesh_tet::recover::{contained_walls, front_xor};
use rustc_hash::{FxHashMap, FxHashSet};

#[test]
fn front_inserts_under_sorted_key() {
    let mut front: FxHashMap<[usize; 3], [usize; 3]> = FxHashMap::default();
    assert!(front_xor(&mut front, [3, 1, 2]));
    assert_eq!(front.len(), 1);
    assert_eq!(front.get(&[1, 2, 3]), Some(&[3, 1, 2]));
}

#[test]
fn front_cancels_a_reversed_face() {
    let mut front: FxHashMap<[usize; 3], [usize; 3]> = FxHashMap::default();
    assert!(front_xor(&mut front, [1, 2, 3]));
    assert!(front_xor(&mut front, [4, 5, 6]));
    // [2, 1, 3] is [1, 2, 3] reversed.
    assert!(front_xor(&mut front, [2, 1, 3]));
    assert_eq!(front.len(), 1);
    assert!(!front.contains_key(&[1, 2, 3]));
    assert_eq!(front.get(&[4, 5, 6]), Some(&[4, 5, 6]));
}

#[test]
fn front_refuses_same_orientation_twice() {
    let mut front: FxHashMap<[usize; 3], [usize; 3]> = FxHashMap::default();
    assert!(front_xor(&mut front, [1, 2, 3]));
    // A rotation is the same oriented face.
    assert!(!front_xor(&mut front, [2, 3, 1]));
    assert_eq!(front.len(), 1);
    assert_eq!(front.get(&[1, 2, 3]), Some(&[1, 2, 3]));
}

#[test]
fn walls_inside_the_vertex_set() {
    let verts: FxHashSet<usize> = [1usize, 2, 3, 4].into_iter().collect();
    let facets = [[1, 2, 3], [1, 2, 5], [4, 3, 2], [6, 7, 8], [2, 4, 1]];
    assert_eq!(contained_walls(&verts, &facets), vec![[1, 2, 3], [4, 3, 2], [2, 4, 1]]);
    let none: FxHashSet<usize> = FxHashSet::default();
    assert!(contained_walls(&none, &facets).is_empty());
}
