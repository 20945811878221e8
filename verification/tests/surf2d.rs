use rapidmesh_tet::recover::Sign;
use rapidmesh_tet::surf2d::{link_pedge, proper_cross, Cdt, NONE2};
use rustc_hash::{FxHashMap, FxHashSet};

fn sign(x: f64) -> Sign {
    if x > 0.0 {
        Sign::Positive
    } else if x < 0.0 {
        Sign::Negative
    } else {
        Sign::Zero
    }
}

/// The unit square split along the diagonal (0, 2).
fn square() -> Cdt {
    Cdt {
        n: 4,
        tris: vec![[0, 1, 2], [0, 2, 3]],
        nbr: vec![[NONE2, NONE2, 1], [0, NONE2, NONE2]],
        alive: vec![true, true],
    }
}

fn square_points() -> Vec<[f64; 2]> {
    vec![[0.0, 0.0], [1.0, 0.0], [1.0, 1.0], [0.0, 1.0]]
}

#[test]
fn real_triangles_skip_super_vertices_and_dead_slots() {
    let c = Cdt {
        n: 3,
        tris: vec![[0, 1, 2], [0, 1, 3], [2, 1, 0]],
        nbr: vec![[NONE2; 3]; 3],
        alive: vec![true, true, false],
    };
    assert_eq!(c.triangles(), vec![[0, 1, 2]]);
}

#[test]
fn edge_slots_and_edges() {
    let c = square();
    assert_eq!(c.edge_slot(0, 2, 0), Some(2));
    assert_eq!(c.edge_slot(1, 0, 2), Some(0));
    assert_eq!(c.edge_slot(1, 2, 0), None);
    assert!(c.has_edge(0, 2));
    assert!(c.has_edge(2, 0));
    assert!(!c.has_edge(1, 3));
}

#[test]
fn relink_repoints_every_match() {
    let mut c = Cdt { n: 3, tris: vec![[0, 1, 2]; 3], nbr: vec![[1, 2, 1], [NONE2; 3], [NONE2; 3]], alive: vec![true; 3] };
    c.relink(0, 1, 2);
    assert_eq!(c.nbr[0], [2, 2, 2]);
    c.relink(NONE2, 2, 1);
    assert_eq!(c.nbr[0], [2, 2, 2]);
}

#[test]
fn flip_turns_the_diagonal() {
    let pts = square_points();
    let o = |a: usize, b: usize, c: usize| sign(geometry_predicates::orient2d(pts[a], pts[b], pts[c]));
    let mut c = square();
    assert!(proper_cross(&o, 1, 3, 0, 2));
    assert!(!proper_cross(&o, 0, 1, 2, 3));
    assert!(c.flippable(&o, 0, 2));
    assert!(!c.flippable(&o, 0, 0));
    c.flip(0, 2);
    assert_eq!(c.tris, vec![[1, 2, 3], [1, 3, 0]]);
    assert_eq!(c.nbr, vec![[NONE2, NONE2, 1], [0, NONE2, NONE2]]);
    assert!(c.has_edge(1, 3));
    assert!(!c.has_edge(0, 2));
}

#[test]
fn pedges_pair_up() {
    let mut map: FxHashMap<[usize; 2], (usize, usize)> = FxHashMap::default();
    let mut nbr = vec![[NONE2; 3]; 2];
    link_pedge(&mut map, &mut nbr, 0, 1, 5, 9);
    assert_eq!(map.get(&[5, 9]), Some(&(0, 1)));
    link_pedge(&mut map, &mut nbr, 1, 2, 9, 5);
    assert!(map.is_empty());
    assert_eq!(nbr, vec![[NONE2, 1, NONE2], [NONE2, NONE2, 0]]);
}

#[test]
fn insertion_fans_a_point_into_its_cavity() {
    let mut c = Cdt { n: 4, tris: vec![[0, 1, 2]], nbr: vec![[NONE2; 3]], alive: vec![true] };
    let mut mark = vec![0u32];
    let inside = |_a: usize, _b: usize, _c: usize| true;
    let (cavity, boundary) = c.cavity_of(&mut mark, 1, 0, &inside);
    assert_eq!(cavity, vec![0]);
    assert_eq!(mark, vec![1]);
    assert_eq!(boundary, vec![(0, 1, NONE2), (1, 2, NONE2), (2, 0, NONE2)]);
    let mut free: Vec<usize> = Vec::new();
    let last = c.fan(&mut free, &mut mark, 3, 0, &cavity, &boundary);
    assert_eq!(last, 2);
    assert!(free.is_empty());
    assert_eq!(c.tris, vec![[0, 1, 3], [1, 2, 3], [2, 0, 3]]);
    assert_eq!(c.nbr, vec![[NONE2, 1, 2], [NONE2, 2, 0], [NONE2, 0, 1]]);
    assert_eq!(c.alive, vec![true, true, true]);
    assert_eq!(mark.len(), 3);
}

#[test]
fn cavity_stops_at_good_triangles() {
    // Two triangles across (0, 2); only triangle 0 is "bad".
    let c = square();
    let mut mark = vec![0u32, 0];
    let inside = |a: usize, b: usize, c: usize| [a, b, c] == [0, 1, 2];
    let (cavity, boundary) = c.cavity_of(&mut mark, 7, 0, &inside);
    assert_eq!(cavity, vec![0]);
    assert_eq!(mark, vec![7, 0]);
    assert_eq!(boundary, vec![(0, 1, NONE2), (1, 2, NONE2), (2, 0, 1)]);
    // Both bad: the cavity takes the neighbor too.
    let mut mark = vec![0u32, 0];
    let all = |_a: usize, _b: usize, _c: usize| true;
    let (cavity, boundary) = c.cavity_of(&mut mark, 7, 0, &all);
    assert_eq!(cavity, vec![0, 1]);
    assert_eq!(boundary.len(), 4);
}

#[test]
fn crossing_walk_and_forced_edge() {
    let pts = square_points();
    let o = |a: usize, b: usize, c: usize| sign(geometry_predicates::orient2d(pts[a], pts[b], pts[c]));
    let mut c = square();
    assert_eq!(c.crossing_edges(&o, 1, 3), Some(vec![(0, 2)]));
    // Nothing at 0 crosses a segment along an existing edge.
    assert_eq!(c.crossing_edges(&o, 0, 1), None);
    let drained = c.flip_crossings(&o, 1, 3, vec![(0, 2)]);
    assert!(drained);
    assert!(c.has_edge(1, 3));
    assert!(!c.has_edge(0, 2));
}

#[test]
fn restore_flips_a_non_delaunay_diagonal() {
    // A flat triangle (0, 1, 2) whose circumcircle holds vertex 3.
    let pts: Vec<[f64; 2]> = vec![[0.0, 0.0], [2.0, -0.3], [4.0, 0.0], [2.0, 1.0]];
    let o = |a: usize, b: usize, c: usize| sign(geometry_predicates::orient2d(pts[a], pts[b], pts[c]));
    let incircle = |u: usize, v: usize, x: usize, y: usize| geometry_predicates::incircle(pts[u], pts[v], pts[x], pts[y]) > 0.0;
    let mut c = Cdt {
        n: 4,
        tris: vec![[0, 1, 2], [0, 2, 3]],
        nbr: vec![[NONE2, NONE2, 1], [0, NONE2, NONE2]],
        alive: vec![true, true],
    };
    let none: FxHashSet<[usize; 2]> = FxHashSet::default();
    let visits = c.restore_delaunay(&none, &incircle, &o);
    // One pass flips the diagonal, the next finds nothing: two visits each.
    assert_eq!(visits, 4);
    assert!(c.has_edge(1, 3));
    assert!(!c.has_edge(0, 2));
    // A constraint keeps the diagonal.
    let mut kept = Cdt {
        n: 4,
        tris: vec![[0, 1, 2], [0, 2, 3]],
        nbr: vec![[NONE2, NONE2, 1], [0, NONE2, NONE2]],
        alive: vec![true, true],
    };
    let cons: FxHashSet<[usize; 2]> = [[0usize, 2usize]].into_iter().collect();
    assert_eq!(kept.restore_delaunay(&cons, &incircle, &o), 2);
    assert!(kept.has_edge(0, 2));
}

#[test]
fn locate_walks_across_the_diagonal() {
    let c = square();
    let mut pts = square_points();
    pts.push([0.2, 0.8]);
    pts.push([2.0, 2.0]);
    let o = |a: usize, b: usize, d: usize| sign(geometry_predicates::orient2d(pts[a], pts[b], pts[d]));
    assert_eq!(c.locate(0, 4, &o), 1);
    assert_eq!(c.locate(1, 4, &o), 1);
    // Outside the square the walk rests where the negative edge is on the hull.
    assert_eq!(c.locate(0, 5, &o), 0);
}

#[test]
fn force_edge_flips_the_crossed_diagonal() {
    let pts = square_points();
    let o = |a: usize, b: usize, c: usize| sign(geometry_predicates::orient2d(pts[a], pts[b], pts[c]));
    let none = |_a: usize, _b: usize| -> Option<usize> { None };
    let mut c = square();
    let mut cons: FxHashSet<[usize; 2]> = FxHashSet::default();
    assert!(c.force_edge(3, 1, &mut cons, &o, &none, 4));
    assert!(c.has_edge(1, 3));
    assert!(cons.contains(&[1, 3]));
    assert_eq!(cons.len(), 1);
    // An existing edge is only recorded.
    assert!(c.force_edge(0, 1, &mut cons, &o, &none, 4));
    assert_eq!(cons.len(), 2);
    assert!(cons.contains(&[0, 1]));
    // A degenerate segment records nothing.
    assert!(c.force_edge(2, 2, &mut cons, &o, &none, 4));
    assert_eq!(cons.len(), 2);
}

#[test]
fn force_edge_splits_at_a_vertex_on_the_segment() {
    // Vertex 1 sits on the segment (0, 2).
    let pts: Vec<[f64; 2]> = vec![[0.0, 0.0], [1.0, 0.0], [2.0, 0.0], [1.0, 1.0], [1.0, -1.0]];
    let o = |a: usize, b: usize, c: usize| sign(geometry_predicates::orient2d(pts[a], pts[b], pts[c]));
    let on_segment = |a: usize, b: usize| -> Option<usize> {
        if (a, b) == (0, 2) {
            Some(1)
        } else {
            None
        }
    };
    let mut c = Cdt {
        n: 5,
        tris: vec![[0, 1, 3], [1, 2, 3], [0, 4, 1], [1, 4, 2]],
        nbr: vec![[NONE2; 3]; 4],
        alive: vec![true; 4],
    };
    let mut cons: FxHashSet<[usize; 2]> = FxHashSet::default();
    assert!(c.force_edge(0, 2, &mut cons, &o, &on_segment, 5));
    let mut keys: Vec<[usize; 2]> = cons.into_iter().collect();
    keys.sort();
    assert_eq!(keys, vec![[0, 1], [0, 2], [1, 2]]);
    assert_eq!(c.tris, vec![[0, 1, 3], [1, 2, 3], [0, 4, 1], [1, 4, 2]]);
    // Without depth left no split is made.
    let mut shallow: FxHashSet<[usize; 2]> = FxHashSet::default();
    assert!(!c.force_edge(0, 2, &mut shallow, &o, &on_segment, 0));
    assert_eq!(shallow.len(), 1);
}

#[test]
fn readiness_checks_follow_the_requirements() {
    let c = Cdt { n: 3, tris: vec![[0, 1, 2]], nbr: vec![[NONE2; 3]], alive: vec![true] };
    assert!(c.is_wf());
    let bad = Cdt { n: 3, tris: vec![[0, 1, 2]], nbr: vec![[5, NONE2, NONE2]], alive: vec![true] };
    assert!(!bad.is_wf());
    assert!(c.cavity_ready(&vec![0], 1, 0));
    assert!(!c.cavity_ready(&vec![1], 1, 0));
    assert!(!c.cavity_ready(&vec![0], 1, 1));
    assert!(c.fan_ready(&vec![], &vec![0], &vec![0], &vec![(0, 1, NONE2)]));
    assert!(!c.fan_ready(&vec![], &vec![0], &vec![0, 0], &vec![(0, 1, NONE2)]));
    assert!(!c.fan_ready(&vec![0], &vec![0], &vec![0], &vec![(0, 1, NONE2)]));
    assert!(!c.fan_ready(&vec![], &vec![0], &vec![0], &vec![(0, 1, 0)]));
}

#[test]
fn insert_vertex_fans_a_point_into_its_triangle() {
    let pts: Vec<[f64; 2]> = vec![[0.0, 0.0], [4.0, 0.0], [0.0, 4.0], [1.0, 1.0], [0.0, 0.0]];
    let o = |a: usize, b: usize, c: usize| sign(geometry_predicates::orient2d(pts[a], pts[b], pts[c]));
    let mut c = Cdt { n: 5, tris: vec![[0, 1, 2]], nbr: vec![[NONE2; 3]], alive: vec![true] };
    let mut free: Vec<usize> = Vec::new();
    let mut mark = vec![0u32];
    let mut epoch = 0u32;
    let inside3 = |a: usize, b: usize, d: usize| geometry_predicates::incircle(pts[a], pts[b], pts[d], pts[3]) > 0.0;
    let r = c.insert_vertex(&mut free, &mut mark, &mut epoch, 0, 3, &o, &inside3);
    assert_eq!(r, Some((2, true)));
    assert_eq!(epoch, 1);
    assert_eq!(c.tris, vec![[0, 1, 3], [1, 2, 3], [2, 0, 3]]);
    assert_eq!(c.alive, vec![true; 3]);
    // A point on a circumcircle (here a copy of vertex 0) is left out.
    let inside4 = |a: usize, b: usize, d: usize| geometry_predicates::incircle(pts[a], pts[b], pts[d], pts[4]) > 0.0;
    let before = c.tris.clone();
    let r = c.insert_vertex(&mut free, &mut mark, &mut epoch, 2, 4, &o, &inside4);
    assert_eq!(r, Some((2, false)));
    assert_eq!(epoch, 1);
    assert_eq!(c.tris, before);
}
