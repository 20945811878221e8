use rapidmesh_tet::cdt::FacetRef;
use rapidmesh_tet::chains::SegmentChains;
use rapidmesh_tet::delaunay::{TetSlab, NONE};
use rapidmesh_tet::facets::{
    boundary_intact, candidate_sweep, facet_seeds, facet_step, facet_unsplit, piercing_component, piercing_slots,
    tet_pierces_facet, FacetStep,
};
use rapidmesh_tet::recover::Sign;

fn sign(x: f64) -> Sign {
    if x > 0.0 {
        Sign::Positive
    } else if x < 0.0 {
        Sign::Negative
    } else {
        Sign::Zero
    }
}

/// A facet in the z = 0 plane, a vertical edge through it, and two points
/// off to the side above and below the plane.
fn points() -> Vec<[f64; 3]> {
    vec![
        [0.0, 0.0, 0.0],
        [4.0, 0.0, 0.0],
        [0.0, 4.0, 0.0],
        [1.0, 1.0, -1.0],
        [1.0, 1.0, 1.0],
        [10.0, 10.0, 1.0],
        [10.0, 10.0, -1.0],
    ]
}

fn internal(t: [u32; 4]) -> [u32; 4] {
    [t[0] + 4, t[1] + 4, t[2] + 4, t[3] + 4]
}

/// Slot 0 is a super-tet, slots 1 and 3 hold the vertical edge 3-4, slot 2
/// lies off the facet.
fn slab() -> TetSlab {
    TetSlab {
        tets: vec![[0, 1, 2, 3], internal([3, 4, 5, 0]), internal([5, 6, 1, 2]), internal([3, 4, 6, 1])],
        neighbors: vec![[NONE; 4], [3, 2, NONE, NONE], [1, NONE, NONE, NONE], [1, NONE, NONE, NONE]],
        alive: vec![true; 4],
        free: vec![],
        mark: vec![0; 4],
        last: 0,
        new_tets: vec![],
    }
}

#[test]
fn vertical_edge_pierces_the_facet() {
    let pts = points();
    let side = |v: usize| sign(geometry_predicates::orient3d(pts[0], pts[1], pts[2], pts[v]));
    let o = |a: usize, b: usize, c: usize, d: usize| sign(geometry_predicates::orient3d(pts[a], pts[b], pts[c], pts[d]));
    assert!(tet_pierces_facet(&side, &o, [0, 1, 2], [3, 4, 5, 0]));
    assert!(!tet_pierces_facet(&side, &o, [0, 1, 2], [5, 6, 1, 2]));
}

#[test]
fn piercing_slots_keep_candidate_order() {
    let pts = points();
    let side = |v: usize| sign(geometry_predicates::orient3d(pts[0], pts[1], pts[2], pts[v]));
    let o = |a: usize, b: usize, c: usize, d: usize| sign(geometry_predicates::orient3d(pts[a], pts[b], pts[c], pts[d]));
    let s = slab();
    assert_eq!(piercing_slots(&s, &[0, 1, 2, 3, 9], &side, &o, [0, 1, 2]), vec![1, 3]);
    assert_eq!(piercing_slots(&s, &[3, 1], &side, &o, [0, 1, 2]), vec![3, 1]);
}

#[test]
fn component_starts_at_the_least_piercing_slot() {
    let s = slab();
    assert_eq!(piercing_component(&s, &[3, 1]), vec![1, 3]);
    assert_eq!(piercing_component(&s, &[3]), vec![3]);
    assert_eq!(piercing_component(&s, &[]), Vec::<u32>::new());
}

#[test]
fn component_stays_within_the_piercing_slots() {
    let s = slab();
    assert_eq!(piercing_component(&s, &[2, 3]), vec![2]);
}

#[test]
fn sweep_spreads_through_overlapping_neighbors() {
    let s = slab();
    let all = |_t: &[usize; 4]| true;
    assert_eq!(candidate_sweep(&s, &[2, 0, 2], &all), vec![2, 1, 3]);
    let none = |_t: &[usize; 4]| false;
    assert_eq!(candidate_sweep(&s, &[2, 0], &none), vec![2]);
    let near = |t: &[usize; 4]| !t.contains(&5);
    assert_eq!(candidate_sweep(&s, &[3], &near), vec![3]);
}

fn triangle_chains() -> (SegmentChains, FacetRef) {
    let c = SegmentChains::new(&[(0, 1), (1, 2), (2, 0)], &[false; 3]);
    (c, FacetRef { corners: [0, 1, 2], edges: [0, 1, 2] })
}

#[test]
fn facet_boundary_checks() {
    let (mut c, f) = triangle_chains();
    let dt = |a: usize, b: usize| {
        let (x, y) = if a < b { (a, b) } else { (b, a) };
        matches!((x, y), (0, 1) | (1, 2) | (0, 2) | (0, 9))
    };
    assert!(facet_unsplit(&c, &f));
    assert!(boundary_intact(&c, &f, &dt));
    c.split_piece(0, 0, 9);
    assert!(!facet_unsplit(&c, &f));
    assert!(!boundary_intact(&c, &f, &dt));
}

#[test]
fn facet_seeds_are_corners_then_chains() {
    let (mut c, f) = triangle_chains();
    assert_eq!(facet_seeds(&c, &f), vec![0, 1, 2, 0, 1, 1, 2, 2, 0]);
    c.split_piece(1, 0, 7);
    assert_eq!(facet_seeds(&c, &f), vec![0, 1, 2, 0, 1, 1, 7, 2, 2, 0]);
}

/// One real tet on vertices 0, 1, 2 (the facet) and 3 below it.
fn one_tet() -> TetSlab {
    TetSlab {
        tets: vec![internal([0, 1, 2, 3])],
        neighbors: vec![[NONE; 4]],
        alive: vec![true],
        free: vec![],
        mark: vec![0],
        last: 0,
        new_tets: vec![],
    }
}

fn step_on(s: &TetSlab, c: &SegmentChains, f: &FacetRef, edges_exist: bool) -> FacetStep {
    let pts = points();
    let side = |v: usize| sign(geometry_predicates::orient3d(pts[0], pts[1], pts[2], pts[v]));
    let o = |a: usize, b: usize, c: usize, d: usize| sign(geometry_predicates::orient3d(pts[a], pts[b], pts[c], pts[d]));
    let ins = |a: usize, b: usize, c: usize, d: usize, e: usize| {
        sign(geometry_predicates::insphere(pts[a], pts[b], pts[c], pts[d], pts[e]))
    };
    let o2 = |a: usize, b: usize, c: usize, ax: usize| {
        let p = |v: usize| match ax {
            0 => [pts[v][1], pts[v][2]],
            1 => [pts[v][0], pts[v][2]],
            _ => [pts[v][0], pts[v][1]],
        };
        sign(geometry_predicates::orient2d(p(a), p(b), p(c)))
    };
    let edge = |_a: usize, _b: usize| edges_exist;
    let overlaps = |_t: &[usize; 4]| true;
    facet_step(s, c, f, &edge, &overlaps, &side, &o, &ins, &o2)
}

#[test]
fn facet_step_skips_a_facet_that_is_a_face() {
    let (c, f) = triangle_chains();
    assert!(matches!(step_on(&one_tet(), &c, &f, false), FacetStep::Present));
}

#[test]
fn facet_step_defers_a_facet_with_a_broken_chain() {
    let (c, f) = triangle_chains();
    assert!(matches!(step_on(&slab(), &c, &f, false), FacetStep::Deferred));
}

#[test]
fn facet_step_finds_nothing_piercing_a_split_facet_face() {
    let (mut c, f) = triangle_chains();
    c.split_piece(0, 0, 9);
    assert!(matches!(step_on(&one_tet(), &c, &f, true), FacetStep::Clean));
}

#[test]
fn facet_step_takes_the_component_of_the_least_piercing_slot() {
    let (c, f) = triangle_chains();
    match step_on(&slab(), &c, &f, true) {
        FacetStep::Retet(comp, _) | FacetStep::Stuck(comp) => assert_eq!(comp, vec![1, 3]),
        _ => panic!("the vertical edge pierces the facet"),
    }
}
