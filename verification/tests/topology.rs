use rapidmesh_tet::topology::{
    face, is_reversed, is_same_cycle, kept_axes, oriented_face, sorted2, sorted3, TET_FACES,
};

#[test]
fn tet_faces_omit_their_vertex() {
    for (i, f) in TET_FACES.iter().enumerate() {
        assert!(!f.contains(&i));
        assert!(f[0] < f[1] && f[1] < f[2]);
    }
}

#[test]
fn oriented_faces_of_a_tet() {
    let t = [10usize, 11, 12, 13];
    assert_eq!(oriented_face(t, 0), [11, 13, 12]);
    assert_eq!(oriented_face(t, 1), [10, 12, 13]);
    assert_eq!(oriented_face(t, 2), [10, 13, 11]);
    assert_eq!(oriented_face(t, 3), [10, 11, 12]);
    // Any index past 2 is the base face.
    assert_eq!(oriented_face(t, 7), [10, 11, 12]);
}

#[test]
fn builder_faces_match_public_faces() {
    let t = [4u32, 9, 6, 5];
    for i in 0..4 {
        let f = face(t, i);
        let g = oriented_face([4, 9, 6, 5], i);
        assert_eq!([f[0] as usize, f[1] as usize, f[2] as usize], g);
    }
}

#[test]
fn oriented_faces_close_up() {
    // Every edge of the tet is run through once in each direction.
    let t = [0usize, 1, 2, 3];
    let mut directed = Vec::new();
    for i in 0..4 {
        let f = oriented_face(t, i);
        for k in 0..3 {
            directed.push((f[k], f[(k + 1) % 3]));
        }
    }
    for &(a, b) in &directed {
        assert!(directed.contains(&(b, a)));
        assert_eq!(directed.iter().filter(|&&e| e == (a, b)).count(), 1);
    }
}

#[test]
fn sorted_keys() {
    assert_eq!(sorted2(5, 2), (2, 5));
    assert_eq!(sorted2(2, 5), (2, 5));
    assert_eq!(sorted2(3, 3), (3, 3));
    assert_eq!(sorted3([3, 1, 2]), [1, 2, 3]);
    assert_eq!(sorted3([9, 9, 1]), [1, 9, 9]);
    assert_eq!(sorted3([0, 5, 4]), [0, 4, 5]);
    // Orientation does not change the key.
    assert_eq!(sorted3([7, 2, 5]), sorted3([2, 7, 5]));
}

#[test]
fn kept_axes_drop_one() {
    assert_eq!(kept_axes(0), (1, 2));
    assert_eq!(kept_axes(1), (0, 2));
    assert_eq!(kept_axes(2), (0, 1));
    assert_eq!(kept_axes(5), (0, 1));
}

#[test]
fn cycles_and_reversals() {
    let f = [1usize, 2, 3];
    assert!(is_same_cycle(f, [1, 2, 3]));
    assert!(is_same_cycle(f, [2, 3, 1]));
    assert!(is_same_cycle(f, [3, 1, 2]));
    assert!(!is_same_cycle(f, [1, 3, 2]));
    assert!(is_reversed(f, [1, 3, 2]));
    assert!(is_reversed(f, [3, 2, 1]));
    assert!(is_reversed(f, [2, 1, 3]));
    assert!(!is_reversed(f, [2, 3, 1]));
    // Reversal is symmetric.
    assert!(is_reversed([1, 3, 2], f));
    assert!(!is_reversed(f, [1, 2, 4]));
}
