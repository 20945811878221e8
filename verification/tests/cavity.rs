use rapidmesh_tet::cavity::{CavityGrowth, WalkStep};
use rapidmesh_tet::delaunay::TetSlab;
use rapidmesh_tet::recover::Sign;
use rapidmesh_tet::topology::face;

fn sign(x: f64) -> Sign {
    if x > 0.0 {
        Sign::Positive
    } else if x < 0.0 {
        Sign::Negative
    } else {
        Sign::Zero
    }
}

/// Super-tet corners, then the inserted points.
fn points() -> Vec<[f64; 3]> {
    vec![
        [-10.0, -10.0, -10.0],
        [30.0, -10.0, -10.0],
        [-10.0, 30.0, -10.0],
        [-10.0, -10.0, 30.0],
        [1.0, 1.0, 1.0],
        [2.0, 1.5, 1.25],
        [100.0, 100.0, 100.0],
    ]
}

fn seeded() -> TetSlab {
    let pts = points();
    assert!(geometry_predicates::orient3d(pts[0], pts[1], pts[3], pts[2]) > 0.0);
    TetSlab::seeded([0, 1, 3, 2])
}

fn sees_of(pts: &[[f64; 3]], p: usize) -> impl Fn(u32, u32, u32) -> Sign + '_ {
    move |a, b, c| sign(geometry_predicates::orient3d(pts[a as usize], pts[b as usize], pts[c as usize], pts[p]))
}

fn ins_of(pts: &[[f64; 3]], p: usize) -> impl Fn([u32; 4]) -> Sign + '_ {
    move |t: [u32; 4]| {
        sign(geometry_predicates::insphere(
            pts[t[0] as usize],
            pts[t[1] as usize],
            pts[t[2] as usize],
            pts[t[3] as usize],
            pts[p],
        ))
    }
}

/// The slab after inserting point 4 into the super-tet.
fn one_point() -> TetSlab {
    let pts = points();
    let mut s = seeded();
    let start = s.locate(&sees_of(&pts, 4)).unwrap();
    let never = |_t: [u32; 4]| false;
    match s.grow_cavity(start, 1, usize::MAX, &ins_of(&pts, 4), &sees_of(&pts, 4), &never) {
        CavityGrowth::Grown(c) => {
            let b = s.cavity_boundary(&c, 1);
            s.refill(4, &c, &b);
        }
        _ => panic!("the first point grows a cavity"),
    }
    s
}

#[test]
fn first_point_takes_the_super_tet() {
    let pts = points();
    let mut s = seeded();
    let sees = sees_of(&pts, 4);
    assert_eq!(s.locate_scan(&sees), Some(0));
    assert_eq!(s.locate(&sees), Some(0));
    assert!(matches!(s.walk_step(0, u32::MAX, &sees), WalkStep::Stay));
    let never = |_t: [u32; 4]| false;
    match s.grow_cavity(0, 1, usize::MAX, &ins_of(&pts, 4), &sees, &never) {
        CavityGrowth::Grown(c) => assert_eq!(c, vec![0]),
        _ => panic!("expected a cavity"),
    }
    assert_eq!(s.mark, vec![1]);
}

#[test]
fn point_outside_the_super_tet_is_not_located() {
    let pts = points();
    let s = seeded();
    let sees = sees_of(&pts, 6);
    assert_eq!(s.locate_scan(&sees), None);
    assert_eq!(s.locate(&sees), None);
    assert!(matches!(s.walk_step(0, u32::MAX, &sees), WalkStep::Scan));
}

#[test]
fn cavity_across_the_hull_is_reported() {
    let pts = points();
    let mut s = seeded();
    let never = |_t: [u32; 4]| false;
    let r = s.grow_cavity(0, 1, usize::MAX, &ins_of(&pts, 6), &sees_of(&pts, 6), &never);
    assert!(matches!(r, CavityGrowth::HullReached));
}

#[test]
fn too_close_start_is_refused_unmarked() {
    let pts = points();
    let mut s = seeded();
    let always = |_t: [u32; 4]| true;
    let r = s.grow_cavity(0, 1, usize::MAX, &ins_of(&pts, 4), &sees_of(&pts, 4), &always);
    assert!(matches!(r, CavityGrowth::Refused));
    assert_eq!(s.mark, vec![0]);
}

#[test]
fn second_point_cavity_is_star_shaped() {
    let pts = points();
    let mut s = one_point();
    let sees = sees_of(&pts, 5);
    let ins = ins_of(&pts, 5);
    let start = s.locate(&sees).unwrap();
    let t = s.tets[start as usize];
    for i in 0..4 {
        let f = face(t, i);
        assert_ne!(sees(f[0], f[1], f[2]), Sign::Negative);
    }
    let never = |_t: [u32; 4]| false;
    let c = match s.grow_cavity(start, 2, usize::MAX, &ins, &sees, &never) {
        CavityGrowth::Grown(c) => c,
        _ => panic!("expected a cavity"),
    };
    assert_eq!(c[0], start);
    assert!(c.len() > 1);
    for (slot, m) in s.mark.iter().enumerate() {
        assert_eq!(*m == 2, c.contains(&(slot as u32)));
    }
    for &ti in &c {
        for i in 0..4 {
            let nb = s.neighbors[ti as usize][i];
            if !c.contains(&nb) {
                let f = face(s.tets[ti as usize], i);
                assert_eq!(sees(f[0], f[1], f[2]), Sign::Positive);
            }
        }
    }
    // Every boundary face the re-fill cones sees the point strictly.
    let boundary = s.cavity_boundary(&c, 2);
    assert!(!boundary.is_empty());
    for (ti, i) in boundary {
        let f = face(s.tets[ti as usize], i as usize);
        assert_eq!(sees(f[0], f[1], f[2]), Sign::Positive);
    }
}

#[test]
fn cavity_over_the_size_cap_is_refused() {
    let pts = points();
    let mut s = one_point();
    let sees = sees_of(&pts, 5);
    let start = s.locate(&sees).unwrap();
    let never = |_t: [u32; 4]| false;
    let r = s.grow_cavity(start, 2, 1, &ins_of(&pts, 5), &sees, &never);
    assert!(matches!(r, CavityGrowth::Refused));
}

#[test]
fn too_close_neighbor_refuses_the_cavity() {
    let pts = points();
    let mut s = one_point();
    let sees = sees_of(&pts, 5);
    let start = s.locate(&sees).unwrap();
    let start_tet = s.tets[start as usize];
    let others_close = move |t: [u32; 4]| t != start_tet;
    let r = s.grow_cavity(start, 2, usize::MAX, &ins_of(&pts, 5), &sees, &others_close);
    assert!(matches!(r, CavityGrowth::Refused));
}

/// Inserts points one by one with the library's walk, cavity growth,
/// boundary extraction and re-fill.
fn insert_all(extra: &[[f64; 3]]) -> (Vec<[f64; 3]>, TetSlab) {
    let mut pts = points()[..4].to_vec();
    pts.extend_from_slice(extra);
    let mut s = seeded();
    for p in 4..pts.len() {
        let sees = sees_of(&pts, p);
        let start = s.locate(&sees).expect("inside the super-tet");
        let never = |_t: [u32; 4]| false;
        let epoch = p as u32;
        match s.grow_cavity(start, epoch, usize::MAX, &ins_of(&pts, p), &sees, &never) {
            CavityGrowth::Grown(c) => {
                let b = s.cavity_boundary(&c, epoch);
                assert_eq!(s.refill(p as u32, &c, &b), p - 4);
            }
            _ => panic!("insertion refused"),
        }
    }
    (pts, s)
}

#[test]
fn incremental_insertion_yields_a_delaunay_tetrahedralization() {
    let extra: Vec<[f64; 3]> = vec![
        [0.0, 0.0, 0.0],
        [1.0, 0.1, 0.0],
        [0.1, 1.0, 0.2],
        [0.0, 0.2, 1.0],
        [1.1, 1.0, 0.1],
        [0.9, 0.1, 1.1],
        [0.2, 0.9, 1.2],
        [1.0, 1.1, 0.9],
        [0.5, 0.45, 0.55],
    ];
    let (pts, s) = insert_all(&extra);
    let mut live = 0;
    for (ti, t) in s.tets.iter().enumerate() {
        if !s.alive[ti] {
            continue;
        }
        live += 1;
        let q: Vec<[f64; 3]> = t.iter().map(|&v| pts[v as usize]).collect();
        assert!(geometry_predicates::orient3d(q[0], q[1], q[2], q[3]) > 0.0);
        for v in 4..pts.len() as u32 {
            if t.contains(&v) {
                continue;
            }
            assert!(geometry_predicates::insphere(q[0], q[1], q[2], q[3], pts[v as usize]) <= 0.0);
        }
        // Neighbor pointers are mutual.
        for i in 0..4 {
            let nb = s.neighbors[ti][i];
            if nb != rapidmesh_tet::delaunay::NONE {
                assert!(s.alive[nb as usize]);
                assert!(s.neighbors[nb as usize].contains(&(ti as u32)));
            }
        }
    }
    assert!(live > 0);
    assert!(!s.tets().is_empty());
}
