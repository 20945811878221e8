use rapidmesh_tet::cdt::{coplanar_open_overlap, crosses_front, gift_wrap, perturbed_insphere, retet_cavity, wrap_apex};
use rapidmesh_tet::delaunay::{TetSlab, NONE};
use rapidmesh_tet::recover::Sign;
use rustc_hash::FxHashMap;

type V3 = [f64; 3];

fn sign(x: f64) -> Sign {
    if x > 0.0 {
        Sign::Positive
    } else if x < 0.0 {
        Sign::Negative
    } else {
        Sign::Zero
    }
}

fn project(p: V3, ax: usize) -> [f64; 2] {
    match ax {
        0 => [p[1], p[2]],
        1 => [p[0], p[2]],
        _ => [p[0], p[1]],
    }
}

/// A triangle in the plane z = 0, a point below and one above it, and more
/// points in that plane.
fn points() -> Vec<V3> {
    vec![
        [0.0, 0.0, 0.0],
        [1.0, 0.0, 0.0],
        [0.0, 1.0, 0.0],
        [0.2, 0.2, -1.0],
        [0.2, 0.2, 1.0],
        [0.25, 0.25, 0.0],
        [1.0, 1.0, 0.0],
    ]
}

#[test]
fn coplanar_overlap_needs_shared_interior() {
    let pts = points();
    let o = |a: usize, b: usize, c: usize, d: usize| sign(geometry_predicates::orient3d(pts[a], pts[b], pts[c], pts[d]));
    let o2 = |a: usize, b: usize, c: usize, ax: usize| {
        sign(geometry_predicates::orient2d(project(pts[a], ax), project(pts[b], ax), project(pts[c], ax)))
    };
    // A triangle inside [0, 1, 2] overlaps it.
    assert_eq!(coplanar_open_overlap(&o, &o2, [0, 1, 2], [0, 1, 5]), Some(true));
    // One across the edge 1-2 only touches it.
    assert_eq!(coplanar_open_overlap(&o, &o2, [0, 1, 2], [1, 6, 2]), Some(false));
    // A triangle off the plane never overlaps.
    assert_eq!(coplanar_open_overlap(&o, &o2, [0, 1, 2], [0, 1, 4]), Some(false));
    // A face degenerate in every projection cannot be tested.
    assert_eq!(coplanar_open_overlap(&o, &o2, [0, 0, 0], [0, 0, 0]), None);
}

#[test]
fn front_crossing_catches_a_piercing_tet() {
    let pts = points();
    let o = |a: usize, b: usize, c: usize, d: usize| sign(geometry_predicates::orient3d(pts[a], pts[b], pts[c], pts[d]));
    let o2 = |a: usize, b: usize, c: usize, ax: usize| {
        sign(geometry_predicates::orient2d(project(pts[a], ax), project(pts[b], ax), project(pts[c], ax)))
    };
    let mut active: FxHashMap<[usize; 3], [usize; 3]> = FxHashMap::default();
    active.insert([0, 1, 2], [0, 1, 2]);
    // The tet (3, 4, 5, 6) has its edge 3-4 through the front triangle.
    assert_eq!(crosses_front(&o, &o2, [3, 4, 5], 6, &active), Some(true));
    // A tet below the plane spanned by the triangle itself does not cross.
    assert_eq!(crosses_front(&o, &o2, [0, 1, 2], 3, &active), Some(false));
    // An empty front is never crossed.
    assert_eq!(crosses_front(&o, &o2, [3, 4, 5], 6, &FxHashMap::default()), Some(false));
}

#[test]
fn gift_wrap_closes_a_tet_front() {
    let pts = points();
    let o = |a: usize, b: usize, c: usize, d: usize| sign(geometry_predicates::orient3d(pts[a], pts[b], pts[c], pts[d]));
    let ins = |a: usize, b: usize, c: usize, d: usize, e: usize| {
        sign(geometry_predicates::insphere(pts[a], pts[b], pts[c], pts[d], pts[e]))
    };
    let o2 = |a: usize, b: usize, c: usize, ax: usize| {
        sign(geometry_predicates::orient2d(project(pts[a], ax), project(pts[b], ax), project(pts[c], ax)))
    };
    let side = |v: usize| sign(geometry_predicates::orient3d(pts[0], pts[1], pts[2], pts[v]));
    assert_eq!(o(0, 1, 2, 3), Sign::Positive);
    // The faces of the tet (0, 1, 2, 3), wound with its interior positive.
    let front = vec![[1, 3, 2], [0, 2, 3], [0, 3, 1], [0, 1, 2]];
    let mut out = vec![[9, 9, 9, 9]];
    let interface = gift_wrap(front, &[0, 1, 2, 3], false, &mut out, &o, &ins, &o2, &side).expect("closed front");
    assert!(interface.is_empty());
    assert_eq!(out.len(), 2);
    assert_eq!(out[0], [9, 9, 9, 9]);
    let t = out[1];
    assert_eq!(o(t[0], t[1], t[2], t[3]), Sign::Positive);
    let mut s = t;
    s.sort_unstable();
    assert_eq!(s, [0, 1, 2, 3]);
}

#[test]
fn gift_wrap_hands_on_plane_tiles_over() {
    let pts = points();
    let o = |a: usize, b: usize, c: usize, d: usize| sign(geometry_predicates::orient3d(pts[a], pts[b], pts[c], pts[d]));
    let ins = |a: usize, b: usize, c: usize, d: usize, e: usize| {
        sign(geometry_predicates::insphere(pts[a], pts[b], pts[c], pts[d], pts[e]))
    };
    let o2 = |a: usize, b: usize, c: usize, ax: usize| {
        sign(geometry_predicates::orient2d(project(pts[a], ax), project(pts[b], ax), project(pts[c], ax)))
    };
    let side = |v: usize| sign(geometry_predicates::orient3d(pts[0], pts[1], pts[2], pts[v]));
    // Only the three faces of (0, 1, 2, 3) through the apex 3: the wrap
    // builds that tet and returns its on-plane face as interface.
    let front = vec![[1, 3, 2], [0, 2, 3], [0, 3, 1]];
    let mut out = Vec::new();
    let interface = gift_wrap(front, &[0, 1, 2, 3], true, &mut out, &o, &ins, &o2, &side).expect("wraps");
    assert_eq!(out.len(), 1);
    assert_eq!(interface.len(), 1);
    let f = interface[0];
    assert!(f.iter().all(|&v| side(v) == Sign::Zero));
    // Wound with the other side (away from 3) positive.
    assert_eq!(o(f[0], f[1], f[2], 4), Sign::Positive);
}

#[test]
fn retet_cavity_rebuilds_a_split_bipyramid() {
    let pts = points();
    let o = |a: usize, b: usize, c: usize, d: usize| sign(geometry_predicates::orient3d(pts[a], pts[b], pts[c], pts[d]));
    let ins = |a: usize, b: usize, c: usize, d: usize, e: usize| {
        sign(geometry_predicates::insphere(pts[a], pts[b], pts[c], pts[d], pts[e]))
    };
    let o2 = |a: usize, b: usize, c: usize, ax: usize| {
        sign(geometry_predicates::orient2d(project(pts[a], ax), project(pts[b], ax), project(pts[c], ax)))
    };
    let side = |v: usize| sign(geometry_predicates::orient3d(pts[0], pts[1], pts[2], pts[v]));
    // Tets (0, 1, 2, 3) and (1, 0, 2, 4) share the facet (0, 1, 2); slab
    // vertex ids are public ids + 4.
    let slab = TetSlab {
        tets: vec![[4, 5, 6, 7], [5, 4, 6, 8]],
        neighbors: vec![[NONE, NONE, NONE, 1], [NONE, NONE, NONE, 0]],
        alive: vec![true, true],
        free: vec![],
        mark: vec![0; 2],
        last: 0,
        new_tets: vec![],
    };
    assert_eq!(o(1, 0, 2, 4), Sign::Positive);
    let tets = retet_cavity(&slab, &[0, 1], &side, &o, &ins, &o2).expect("the bipyramid refills");
    assert_eq!(tets.len(), 2);
    let mut sets: Vec<[usize; 4]> = tets
        .iter()
        .map(|t| {
            assert_eq!(o(t[0], t[1], t[2], t[3]), Sign::Positive);
            let mut s = *t;
            s.sort_unstable();
            s
        })
        .collect();
    sets.sort_unstable();
    assert_eq!(sets, vec![[0, 1, 2, 3], [0, 1, 2, 4]]);
}

#[test]
fn retet_cavity_needs_live_tets() {
    let pts = points();
    let o = |a: usize, b: usize, c: usize, d: usize| sign(geometry_predicates::orient3d(pts[a], pts[b], pts[c], pts[d]));
    let ins = |a: usize, b: usize, c: usize, d: usize, e: usize| {
        sign(geometry_predicates::insphere(pts[a], pts[b], pts[c], pts[d], pts[e]))
    };
    let o2 = |a: usize, b: usize, c: usize, ax: usize| {
        sign(geometry_predicates::orient2d(project(pts[a], ax), project(pts[b], ax), project(pts[c], ax)))
    };
    let side = |v: usize| sign(geometry_predicates::orient3d(pts[0], pts[1], pts[2], pts[v]));
    let slab = TetSlab {
        tets: vec![[4, 5, 6, 7], [5, 4, 6, 8]],
        neighbors: vec![[NONE, NONE, NONE, 1], [NONE, NONE, NONE, 0]],
        alive: vec![true, false],
        free: vec![1],
        mark: vec![0; 2],
        last: 0,
        new_tets: vec![],
    };
    assert!(retet_cavity(&slab, &[0, 1], &side, &o, &ins, &o2).is_none());
    // A slot past the slab is no tet either.
    assert!(retet_cavity(&slab, &[0, 7], &side, &o, &ins, &o2).is_none());
}

#[test]
fn perturbed_insphere_breaks_cospherical_ties_by_index() {
    // The cube corners are cospherical: the exact test is zero for any of
    // them against a tet of the others.
    let pts: Vec<V3> = vec![
        [0.0, 0.0, 0.0],
        [1.0, 0.0, 0.0],
        [0.0, 1.0, 0.0],
        [0.0, 0.0, -1.0],
        [1.0, 1.0, -1.0],
        [0.2, 0.2, -0.2],
        [9.0, 9.0, 9.0],
    ];
    let o = |a: usize, b: usize, c: usize, d: usize| sign(geometry_predicates::orient3d(pts[a], pts[b], pts[c], pts[d]));
    let ins = |a: usize, b: usize, c: usize, d: usize, e: usize| {
        sign(geometry_predicates::insphere(pts[a], pts[b], pts[c], pts[d], pts[e]))
    };
    let t = [0, 1, 2, 3];
    assert_eq!(o(0, 1, 2, 3), Sign::Positive);
    // Off the sphere the exact answer stands.
    assert_eq!(perturbed_insphere(&ins, &o, t, 5), Some(Sign::Positive));
    assert_eq!(perturbed_insphere(&ins, &o, t, 6), Some(Sign::Negative));
    // On the sphere: (0, 1, 2, 3, 4) is already sorted (even), so the
    // answer is the orientation of (1, 2, 3, 4).
    assert_eq!(ins(0, 1, 2, 3, 4), Sign::Zero);
    assert_eq!(perturbed_insphere(&ins, &o, t, 4), Some(o(1, 2, 3, 4)));
    // The same tet listed as (1, 0, 3, 2) (an even rearrangement) gives the
    // same tie-break, as the sorted indices and the parity are unchanged.
    assert_eq!(perturbed_insphere(&ins, &o, [1, 0, 3, 2], 4), Some(o(1, 2, 3, 4)));
    // One swap (odd) flips the orientation test.
    let flipped = match o(1, 2, 3, 4) {
        Sign::Positive => Sign::Negative,
        Sign::Negative => Sign::Positive,
        Sign::Zero => Sign::Zero,
    };
    assert_eq!(perturbed_insphere(&ins, &o, [1, 0, 2, 3], 4), Some(flipped));
}

#[test]
fn retet_cavity_refuses_a_boundary_face_on_the_plane() {
    let pts = points();
    let o = |a: usize, b: usize, c: usize, d: usize| sign(geometry_predicates::orient3d(pts[a], pts[b], pts[c], pts[d]));
    let ins = |a: usize, b: usize, c: usize, d: usize, e: usize| {
        sign(geometry_predicates::insphere(pts[a], pts[b], pts[c], pts[d], pts[e]))
    };
    let o2 = |a: usize, b: usize, c: usize, ax: usize| {
        sign(geometry_predicates::orient2d(project(pts[a], ax), project(pts[b], ax), project(pts[c], ax)))
    };
    let side = |v: usize| sign(geometry_predicates::orient3d(pts[0], pts[1], pts[2], pts[v]));
    let slab = TetSlab {
        tets: vec![[4, 5, 6, 7], [5, 4, 6, 8]],
        neighbors: vec![[NONE, NONE, NONE, 1], [NONE, NONE, NONE, 0]],
        alive: vec![true, true],
        free: vec![],
        mark: vec![0; 2],
        last: 0,
        new_tets: vec![],
    };
    // Alone, the upper tet leaves its facet face (0, 1, 2) on the cavity
    // boundary, lying on the plane.
    assert_eq!(retet_cavity(&slab, &[0], &side, &o, &ins, &o2), None);
}

#[test]
fn gift_wrap_of_an_empty_front_is_empty() {
    let pts = points();
    let o = |a: usize, b: usize, c: usize, d: usize| sign(geometry_predicates::orient3d(pts[a], pts[b], pts[c], pts[d]));
    let ins = |a: usize, b: usize, c: usize, d: usize, e: usize| {
        sign(geometry_predicates::insphere(pts[a], pts[b], pts[c], pts[d], pts[e]))
    };
    let o2 = |a: usize, b: usize, c: usize, ax: usize| {
        sign(geometry_predicates::orient2d(project(pts[a], ax), project(pts[b], ax), project(pts[c], ax)))
    };
    let side = |v: usize| sign(geometry_predicates::orient3d(pts[0], pts[1], pts[2], pts[v]));
    let mut out = vec![[9, 9, 9, 9]];
    assert_eq!(gift_wrap(vec![], &[0, 1, 2, 3], false, &mut out, &o, &ins, &o2, &side), Some(vec![]));
    assert_eq!(out, vec![[9, 9, 9, 9]]);
    // A front that repeats a triangle with the same winding is refused.
    assert_eq!(gift_wrap(vec![[0, 1, 2], [1, 2, 0]], &[0, 1, 2, 3], false, &mut out, &o, &ins, &o2, &side), None);
    assert_eq!(out, vec![[9, 9, 9, 9]]);
}

#[test]
fn wrap_apex_picks_a_positive_uncrossed_apex() {
    let pts = points();
    let o = |a: usize, b: usize, c: usize, d: usize| sign(geometry_predicates::orient3d(pts[a], pts[b], pts[c], pts[d]));
    let ins = |a: usize, b: usize, c: usize, d: usize, e: usize| {
        sign(geometry_predicates::insphere(pts[a], pts[b], pts[c], pts[d], pts[e]))
    };
    let o2 = |a: usize, b: usize, c: usize, ax: usize| {
        sign(geometry_predicates::orient2d(project(pts[a], ax), project(pts[b], ax), project(pts[c], ax)))
    };
    let active: FxHashMap<[usize; 3], [usize; 3]> = FxHashMap::default();
    assert_eq!(o(0, 1, 2, 3), Sign::Positive);
    assert_eq!(wrap_apex([0, 1, 2], &[4, 3, 5], &active, &o, &ins, &o2), Some(Some(3)));
    // Only the point above (negative side) and coplanar points: no apex.
    assert_eq!(wrap_apex([0, 1, 2], &[4, 5, 6], &active, &o, &ins, &o2), Some(None));
}

#[test]
fn retet_of_no_cavity_is_empty() {
    let pts = points();
    let o = |a: usize, b: usize, c: usize, d: usize| sign(geometry_predicates::orient3d(pts[a], pts[b], pts[c], pts[d]));
    let ins = |a: usize, b: usize, c: usize, d: usize, e: usize| {
        sign(geometry_predicates::insphere(pts[a], pts[b], pts[c], pts[d], pts[e]))
    };
    let o2 = |a: usize, b: usize, c: usize, ax: usize| {
        sign(geometry_predicates::orient2d(project(pts[a], ax), project(pts[b], ax), project(pts[c], ax)))
    };
    let side = |v: usize| sign(geometry_predicates::orient3d(pts[0], pts[1], pts[2], pts[v]));
    let slab = TetSlab {
        tets: vec![[4, 5, 6, 7]],
        neighbors: vec![[NONE; 4]],
        alive: vec![true],
        free: vec![],
        mark: vec![0],
        last: 0,
        new_tets: vec![],
    };
    assert_eq!(retet_cavity(&slab, &[], &side, &o, &ins, &o2), Some(vec![]));
}
