use rapidmesh_tet::flips::{edge_ring, flip23_tets, orient_ring, ring_tets};
use rapidmesh_tet::recover::Sign;

fn sign(x: f64) -> Sign {
    if x > 0.0 {
        Sign::Positive
    } else if x < 0.0 {
        Sign::Negative
    } else {
        Sign::Zero
    }
}

fn orient_with(pts: Vec<[f64; 3]>) -> impl Fn(usize, usize, usize, usize) -> Sign {
    move |a, b, c, d| sign(geometry_predicates::orient3d(pts[a], pts[b], pts[c], pts[d]))
}

/// Four ring vertices around the z axis, then the edge ends below and above.
fn star_points() -> Vec<[f64; 3]> {
    vec![
        [1.0, 0.0, 0.0],
        [0.0, 1.0, 0.0],
        [-1.0, 0.0, 0.0],
        [0.0, -1.0, 0.0],
        [0.0, 0.0, -1.0],
        [0.0, 0.0, 1.0],
    ]
}

#[test]
fn edge_ring_chains_pairs_into_a_cycle() {
    let pairs = [[0, 1], [2, 1], [3, 2], [0, 3]];
    assert_eq!(edge_ring(&pairs), Some(vec![0, 1, 2, 3]));
}

#[test]
fn edge_ring_starts_at_the_least_vertex() {
    let pairs = [[7, 5], [5, 9], [9, 7]];
    assert_eq!(edge_ring(&pairs), Some(vec![5, 7, 9]));
}

#[test]
fn edge_ring_rejects_an_open_chain() {
    let pairs = [[0, 1], [1, 2], [2, 3]];
    assert_eq!(edge_ring(&pairs), None);
}

#[test]
fn edge_ring_rejects_a_vertex_of_degree_three() {
    let pairs = [[0, 1], [0, 2], [0, 1]];
    assert_eq!(edge_ring(&pairs), None);
}

#[test]
fn edge_ring_rejects_too_few_vertices() {
    let pairs = [[0, 1], [1, 0], [0, 1]];
    assert_eq!(edge_ring(&pairs), None);
}

#[test]
fn orient_ring_reverses_a_clockwise_ring() {
    let o = orient_with(star_points());
    assert_eq!(orient_ring(&o, &[0, 1, 2, 3], 4, 5), Some(vec![3, 2, 1, 0]));
    assert_eq!(orient_ring(&o, &[3, 2, 1, 0], 4, 5), Some(vec![3, 2, 1, 0]));
}

#[test]
fn orient_ring_rejects_a_folded_ring() {
    let o = orient_with(star_points());
    assert_eq!(orient_ring(&o, &[0, 2, 1, 3], 4, 5), None);
}

#[test]
fn ring_tets_follow_the_cut_table() {
    let ring = [3, 2, 1, 0];
    let mut cut = vec![vec![usize::MAX; 4]; 4];
    cut[0][2] = 1;
    cut[0][3] = 1;
    cut[1][3] = 2;
    let out = ring_tets(&ring, &cut, 4, 5);
    assert_eq!(out, vec![[3, 2, 0, 5], [3, 0, 2, 4], [2, 1, 0, 5], [2, 0, 1, 4]]);
}

#[test]
fn ring_tets_count_is_twice_the_triangles() {
    let ring = [10, 11, 12, 13, 14];
    let mut cut = vec![vec![usize::MAX; 5]; 5];
    for i in 0..5 {
        for j in i + 2..5 {
            cut[i][j] = i + 1;
        }
    }
    let out = ring_tets(&ring, &cut, 20, 21);
    assert_eq!(out.len(), 2 * (5 - 2));
    assert_eq!(out[0], [10, 11, 14, 21]);
    assert_eq!(out[1], [10, 14, 11, 20]);
}

#[test]
fn ring_tets_of_a_triangle_ring() {
    let ring = [4, 5, 6];
    let mut cut = vec![vec![usize::MAX; 3]; 3];
    cut[0][2] = 1;
    assert_eq!(ring_tets(&ring, &cut, 0, 1), vec![[4, 5, 6, 1], [4, 6, 5, 0]]);
}

/// A triangle in the z = 0 plane, an apex below and one above.
fn flip_points() -> Vec<[f64; 3]> {
    vec![
        [0.0, 0.0, 0.0],
        [1.0, 0.0, 0.0],
        [0.0, 1.0, 0.0],
        [0.2, 0.2, -1.0],
        [0.2, 0.2, 1.0],
        [3.0, 3.0, 1.0],
        [0.3, 0.3, 0.0],
    ]
}

#[test]
fn flip23_builds_three_positive_tets() {
    let pts = flip_points();
    let o = orient_with(pts.clone());
    let r = flip23_tets(&o, [0, 1, 2], 3, 4);
    assert_eq!(r, Some([[1, 0, 3, 4], [2, 1, 3, 4], [0, 2, 3, 4]]));
    for t in r.unwrap() {
        assert!(geometry_predicates::orient3d(pts[t[0]], pts[t[1]], pts[t[2]], pts[t[3]]) > 0.0);
    }
}

#[test]
fn flip23_needs_the_new_edge_through_the_face() {
    let o = orient_with(flip_points());
    assert_eq!(flip23_tets(&o, [0, 1, 2], 3, 5), None);
}

#[test]
fn flip23_rejects_a_flat_configuration() {
    let o = orient_with(flip_points());
    assert_eq!(flip23_tets(&o, [0, 1, 2], 6, 0), None);
}

#[test]
fn edge_ring_walks_ordered_pairs_backward_from_a_later_least_vertex() {
    let pairs = [[3, 5], [5, 1], [1, 4], [4, 3]];
    assert_eq!(edge_ring(&pairs), Some(vec![1, 5, 3, 4]));
}
