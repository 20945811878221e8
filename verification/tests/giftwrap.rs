use rapidmesh_tet::delaunay::{TetSlab, NONE};
use rapidmesh_tet::recover::{
    cavity_seed, cavity_verts, contained_walls, giftwrap, grow_cavity_ring, recover_attempt, seg_crosses_tri,
    tet_crosses_tri, walls_with_target, wrap_step, Sign, MAX_CAVITY,
};
use rustc_hash::FxHashSet;

fn sign(x: f64) -> Sign {
    if x > 0.0 {
        Sign::Positive
    } else if x < 0.0 {
        Sign::Negative
    } else {
        Sign::Zero
    }
}

/// The corners of a positively oriented tet, then two points off it.
fn points() -> Vec<[f64; 3]> {
    vec![
        [0.0, 0.0, 0.0],
        [1.0, 0.0, 0.0],
        [0.0, 1.0, 0.0],
        [0.0, 0.0, -1.0],
        [5.0, 5.0, 5.0],
        [0.2, 0.2, -3.0],
    ]
}

fn one_tet_slab() -> TetSlab {
    TetSlab {
        tets: vec![[0, 1, 2, 3], [4, 5, 6, 7]],
        neighbors: vec![[NONE; 4]; 2],
        alive: vec![true, true],
        free: vec![],
        mark: vec![0; 2],
        last: 0,
        new_tets: vec![],
    }
}

#[test]
fn segment_through_a_triangle() {
    let pts = vec![[0.0, 0.0, 0.0], [2.0, 0.0, 0.0], [0.0, 2.0, 0.0], [0.5, 0.5, -1.0], [0.5, 0.5, 1.0], [3.0, 3.0, -1.0], [3.0, 3.0, 1.0]];
    let o = |a: usize, b: usize, c: usize, d: usize| sign(geometry_predicates::orient3d(pts[a], pts[b], pts[c], pts[d]));
    assert!(seg_crosses_tri(&o, 3, 4, 0, 1, 2));
    assert!(seg_crosses_tri(&o, 4, 3, 0, 1, 2));
    assert!(!seg_crosses_tri(&o, 5, 6, 0, 1, 2));
    // A shared endpoint is no crossing.
    assert!(!seg_crosses_tri(&o, 0, 4, 0, 1, 2));
    // The tet (3, 4, 5, 6) has the edge 3-4 through the triangle.
    assert!(tet_crosses_tri(&o, [3, 4, 5, 6], [0, 1, 2]));
    assert!(!tet_crosses_tri(&o, [5, 6, 1, 2], [0, 1, 2]));
}

#[test]
fn giftwrap_restores_a_single_tet() {
    let pts = points();
    let o = |a: usize, b: usize, c: usize, d: usize| sign(geometry_predicates::orient3d(pts[a], pts[b], pts[c], pts[d]));
    let ins = |a: usize, b: usize, c: usize, d: usize, e: usize| {
        sign(geometry_predicates::insphere(pts[a], pts[b], pts[c], pts[d], pts[e]))
    };
    assert_eq!(o(0, 1, 2, 3), Sign::Positive);
    let slab = one_tet_slab();
    let tets = giftwrap(&slab, &[1], &[], &o, &ins).expect("a tet wraps to itself");
    assert_eq!(tets.len(), 1);
    let mut t = tets[0];
    t.sort_unstable();
    assert_eq!(t, [0, 1, 2, 3]);
    assert_eq!(o(tets[0][0], tets[0][1], tets[0][2], tets[0][3]), Sign::Positive);
    // Its faces are walls that survive.
    assert!(giftwrap(&slab, &[1], &[[2, 1, 0], [0, 1, 3]], &o, &ins).is_some());
    // A wall that is not a face of the tiling fails the wrap.
    assert!(giftwrap(&slab, &[1], &[[0, 1, 4]], &o, &ins).is_none());
}

#[test]
fn giftwrap_needs_live_real_tets() {
    let pts = points();
    let o = |a: usize, b: usize, c: usize, d: usize| sign(geometry_predicates::orient3d(pts[a], pts[b], pts[c], pts[d]));
    let ins = |a: usize, b: usize, c: usize, d: usize, e: usize| {
        sign(geometry_predicates::insphere(pts[a], pts[b], pts[c], pts[d], pts[e]))
    };
    let slab = one_tet_slab();
    // Slot 0 has super-tet corners, slot 7 does not exist.
    assert!(giftwrap(&slab, &[0], &[], &o, &ins).is_none());
    assert!(giftwrap(&slab, &[1, 7], &[], &o, &ins).is_none());
    let mut dead = one_tet_slab();
    dead.alive[1] = false;
    assert!(giftwrap(&dead, &[1], &[], &o, &ins).is_none());
}

#[test]
fn cavity_vertices_come_from_live_real_tets() {
    let slab = one_tet_slab();
    // Slot 0 holds only super-tet corners; slot 1 the tet (0, 1, 2, 3).
    let mut v: Vec<usize> = cavity_verts(&slab, &[0, 1]).into_iter().collect();
    v.sort_unstable();
    assert_eq!(v, vec![0, 1, 2, 3]);
    assert!(cavity_verts(&slab, &[0]).is_empty());
    assert!(cavity_verts(&slab, &[5]).is_empty());
    // The walls kept by that cavity: facets with all corners among them.
    let verts = cavity_verts(&slab, &[1]);
    assert_eq!(contained_walls(&verts, &[[0, 1, 2], [0, 1, 4], [3, 2, 1]]), vec![[0, 1, 2], [3, 2, 1]]);
}

#[test]
fn target_facet_joins_the_walls_once() {
    let walls = vec![[1, 2, 3], [4, 5, 6]];
    assert_eq!(walls_with_target(walls.clone(), 6, 4, 5), walls);
    assert_eq!(walls_with_target(walls.clone(), 7, 8, 9), vec![[1, 2, 3], [4, 5, 6], [7, 8, 9]]);
    assert_eq!(walls_with_target(vec![], 3, 1, 2), vec![[3, 1, 2]]);
}

#[test]
fn cavity_grows_by_one_ring_of_real_tets() {
    // Slot 0 is a super-tet; slots 1..=3 are real and wired in a chain.
    let slab = TetSlab {
        tets: vec![[0, 1, 2, 3], [4, 5, 6, 7], [4, 5, 6, 8], [4, 5, 8, 9]],
        neighbors: vec![[1, NONE, NONE, NONE], [0, 2, NONE, NONE], [1, 3, NONE, NONE], [2, NONE, NONE, NONE]],
        alive: vec![true; 4],
        free: vec![],
        mark: vec![0; 4],
        last: 0,
        new_tets: vec![],
    };
    let mut set: FxHashSet<u32> = FxHashSet::default();
    set.insert(1);
    assert!(slab.enlarge_ring(&mut set, &[1]));
    let mut got: Vec<u32> = set.iter().copied().collect();
    got.sort();
    assert_eq!(got, vec![1, 2]);
    assert!(slab.enlarge_ring(&mut set, &[1, 2]));
    assert_eq!(set.len(), 3);
    assert!(!slab.enlarge_ring(&mut set, &[1, 2, 3]));
    assert_eq!(set.len(), 3);
}

#[test]
fn giftwrap_of_no_cavity_is_empty_unless_walls_are_owed() {
    let pts = points();
    let o = |a: usize, b: usize, c: usize, d: usize| sign(geometry_predicates::orient3d(pts[a], pts[b], pts[c], pts[d]));
    let ins = |a: usize, b: usize, c: usize, d: usize, e: usize| {
        sign(geometry_predicates::insphere(pts[a], pts[b], pts[c], pts[d], pts[e]))
    };
    let slab = one_tet_slab();
    assert_eq!(giftwrap(&slab, &[], &[], &o, &ins), Some(vec![]));
    assert_eq!(giftwrap(&slab, &[], &[[0, 1, 2]], &o, &ins), None);
}

#[test]
fn wrap_step_takes_the_in_sphere_best_positive_apex() {
    let pts = points();
    let o = |a: usize, b: usize, c: usize, d: usize| sign(geometry_predicates::orient3d(pts[a], pts[b], pts[c], pts[d]));
    let ins = |a: usize, b: usize, c: usize, d: usize, e: usize| {
        sign(geometry_predicates::insphere(pts[a], pts[b], pts[c], pts[d], pts[e]))
    };
    // 3 and 5 lie on the positive side of (0, 1, 2); 5 is outside the
    // circumsphere of (0, 1, 2, 3), so 3 stays.
    assert_eq!(wrap_step([0, 1, 2], &vec![0, 1, 2, 3, 4, 5], &[], &o, &ins), Some([0, 1, 2, 3]));
    assert_eq!(wrap_step([0, 1, 2], &vec![5, 3], &[], &o, &ins), Some([0, 1, 2, 3]));
    // 4 is on the negative side: no apex.
    assert_eq!(wrap_step([0, 1, 2], &vec![4], &[], &o, &ins), None);
    // A wall through the tet (0, 1, 2, 3) rules 3 out.
    assert_eq!(wrap_step([0, 1, 2], &vec![3], &[[4, 5, 1]], &o, &ins).is_none(), tet_crosses_tri(&o, [0, 1, 2, 3], [4, 5, 1]));
}

#[test]
fn cavity_seed_takes_the_stars_of_the_corners() {
    let slab = one_tet_slab();
    let set = cavity_seed(&slab, 0, 1, 4);
    assert_eq!(set.len(), 1);
    assert!(set.contains(&1));
    assert!(cavity_seed(&slab, 4, 5, 6).is_empty());
}

#[test]
fn recover_attempt_wraps_the_cavity_with_its_walls() {
    let pts = points();
    let o = |a: usize, b: usize, c: usize, d: usize| sign(geometry_predicates::orient3d(pts[a], pts[b], pts[c], pts[d]));
    let ins = |a: usize, b: usize, c: usize, d: usize, e: usize| {
        sign(geometry_predicates::insphere(pts[a], pts[b], pts[c], pts[d], pts[e]))
    };
    let slab = one_tet_slab();
    let set = cavity_seed(&slab, 0, 1, 2);
    // The surface facet 0-1-4 is not spanned by the cavity; the target
    // facet 0-1-2 is added as a wall.
    let (removed, walls, wrapped) = recover_attempt(&slab, &set, 0, 1, 2, &[[0, 1, 4], [3, 1, 0]], &o, &ins);
    assert_eq!(removed, vec![1]);
    assert_eq!(walls, vec![[3, 1, 0], [0, 1, 2]]);
    let tets = wrapped.expect("a tet wraps to itself");
    assert_eq!(tets.len(), 1);
    // A target already among the walls is not added twice.
    let (_, walls, _) = recover_attempt(&slab, &set, 0, 1, 3, &[[3, 1, 0]], &o, &ins);
    assert_eq!(walls, vec![[3, 1, 0]]);
}

#[test]
fn grow_cavity_ring_adds_live_neighbors() {
    let mut slab = one_tet_slab();
    slab.tets.push([4, 5, 6, 8]);
    slab.neighbors = vec![[NONE; 4], [2, NONE, NONE, NONE], [1, NONE, NONE, NONE]];
    slab.alive.push(true);
    slab.mark.push(0);
    let mut set = FxHashSet::default();
    set.insert(1u32);
    assert!(grow_cavity_ring(&slab, &mut set, &[1]));
    assert!(set.contains(&2));
    assert!(!grow_cavity_ring(&slab, &mut set, &[1]));
    let big: Vec<u32> = vec![1; MAX_CAVITY];
    let mut other = FxHashSet::default();
    assert!(!grow_cavity_ring(&slab, &mut other, &big));
    assert!(other.is_empty());
}
