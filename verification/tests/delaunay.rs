use rapidmesh_tet::delaunay::{Removal, TetSlab, NONE};

/// Three tets around the edge (4,5) with apexes 6, 7, 8, wired to each other
/// across their shared faces (the other faces are on the hull).
fn edge_star() -> TetSlab {
    let tets = vec![[4, 5, 6, 7], [4, 5, 7, 8], [4, 5, 8, 6]];
    let neighbors = vec![[NONE, NONE, 1, 2], [NONE, NONE, 2, 0], [NONE, NONE, 0, 1]];
    TetSlab {
        tets,
        neighbors,
        alive: vec![true; 3],
        free: vec![],
        mark: vec![0; 3],
        last: 0,
        new_tets: vec![],
    }
}

#[test]
fn seeded_slab_holds_the_super_tet() {
    let s = TetSlab::seeded([0, 1, 3, 2]);
    assert_eq!(s.tets, vec![[0, 1, 3, 2]]);
    assert_eq!(s.neighbors, vec![[NONE; 4]]);
    assert_eq!(s.alive, vec![true]);
    assert!(s.free.is_empty());
    assert_eq!(s.last, 0);
    // Only super-tet corners: no real tets, no hull faces yet.
    assert!(s.tets().is_empty());
    assert!(s.hull_faces().is_empty());
}

#[test]
fn alloc_reuses_the_latest_freed_slot() {
    let mut s = TetSlab::seeded([0, 1, 2, 3]);
    assert_eq!(s.alloc_tet([4, 5, 6, 7]), 1);
    assert_eq!(s.alloc_tet([4, 5, 6, 8]), 2);
    s.alive[1] = false;
    s.alive[2] = false;
    s.free = vec![1, 2];
    s.mark[2] = 9;
    s.neighbors[2] = [0, 1, 0, 1];
    assert_eq!(s.alloc_tet([9, 9, 9, 9]), 2);
    assert_eq!(s.free, vec![1]);
    assert_eq!(s.tets[2], [9, 9, 9, 9]);
    assert_eq!(s.neighbors[2], [NONE; 4]);
    assert!(s.alive[2]);
    assert_eq!(s.mark[2], 0);
    assert_eq!(s.tets.len(), 3);
}

#[test]
fn refill_of_the_super_tet_cones_four_tets() {
    let mut s = TetSlab::seeded([0, 1, 2, 3]);
    s.mark[0] = 1;
    let cavity = vec![0u32];
    let boundary = s.cavity_boundary(&cavity, 1);
    assert_eq!(boundary, vec![(0, 0), (0, 1), (0, 2), (0, 3)]);
    assert!(s.guarded_removals(&cavity, &boundary).is_empty());
    assert_eq!(s.refill(4, &cavity, &boundary), 0);
    assert_eq!(s.new_tets, vec![1, 2, 3, 4]);
    assert_eq!(s.last, 4);
    assert_eq!(s.free, vec![0]);
    assert_eq!(s.alive, vec![false, true, true, true, true]);
    // Each new tet is a boundary face (wound as in the cavity tet) plus p.
    assert_eq!(s.tets[1..], [[1, 3, 2, 4], [0, 2, 3, 4], [0, 3, 1, 4], [0, 1, 2, 4]]);
    // Slot 3 faces the (empty) outside; the others pair up across the
    // edges of the boundary.
    assert_eq!(
        s.neighbors[1..],
        [[2, 4, 3, NONE], [1, 3, 4, NONE], [1, 4, 2, NONE], [1, 2, 3, NONE]]
    );
}

#[test]
fn second_refill_reuses_the_freed_slot() {
    let mut s = TetSlab::seeded([0, 1, 2, 3]);
    s.mark[0] = 1;
    let cavity = vec![0u32];
    let boundary = s.cavity_boundary(&cavity, 1);
    s.refill(4, &cavity, &boundary);
    // Insert point 5 into new tet 1 only.
    s.mark[1] = 2;
    let cavity = vec![1u32];
    let boundary = s.cavity_boundary(&cavity, 2);
    assert_eq!(boundary, vec![(1, 0), (1, 1), (1, 2), (1, 3)]);
    assert_eq!(s.refill(5, &cavity, &boundary), 1);
    // The first new tet takes freed slot 0, the rest are appended.
    assert_eq!(s.new_tets, vec![0, 5, 6, 7]);
    assert_eq!(s.free, vec![1]);
    assert!(!s.alive[1]);
    // The tets across the old boundary now point at the new tets.
    for (j, &(ti, fi)) in boundary.iter().enumerate() {
        let _ = ti;
        let nt = s.new_tets[j] as usize;
        let across = s.neighbors[nt][3];
        if fi < 3 {
            assert_ne!(across, NONE);
            assert!(s.neighbors[across as usize].contains(&(nt as u32)));
        } else {
            assert_eq!(across, NONE);
        }
    }
}

#[test]
fn real_tets_and_hull_faces() {
    let s = TetSlab {
        tets: vec![[4, 5, 6, 7], [0, 4, 5, 6], [4, 5, 8, 9], [0, 1, 5, 6]],
        neighbors: vec![[NONE; 4]; 4],
        alive: vec![true, true, false, true],
        free: vec![2],
        mark: vec![0; 4],
        last: 0,
        new_tets: vec![],
    };
    // Dead slots and tets with super corners are skipped.
    assert_eq!(s.tets(), vec![[0, 1, 2, 3]]);
    // One super corner (vertex 0 at local 0): the face opposite it.
    assert_eq!(s.hull_faces(), vec![([0, 2, 1], 0)]);
}

#[test]
fn cavity_boundary_stops_at_unmarked_tets() {
    let mut s = edge_star();
    s.mark = vec![3, 3, 0];
    let b = s.cavity_boundary(&vec![0, 1], 3);
    assert_eq!(b, vec![(0, 0), (0, 1), (0, 3), (1, 0), (1, 1), (1, 2)]);
    s.mark[2] = 3;
    let b = s.cavity_boundary(&vec![0, 1, 2], 3);
    assert_eq!(b, vec![(0, 0), (0, 1), (1, 0), (1, 1), (2, 0), (2, 1)]);
}

#[test]
fn guarded_removals_of_an_edge_star() {
    let mut s = edge_star();
    s.mark = vec![1, 1, 1];
    let cavity = vec![0, 1, 2];
    let boundary = s.cavity_boundary(&cavity, 1);
    let r = s.guarded_removals(&cavity, &boundary);
    assert_eq!(
        r,
        vec![
            Removal::Face([0, 1, 3]),
            Removal::Face([0, 1, 2]),
            Removal::Edge(0, 1),
            Removal::Face([0, 1, 4]),
            Removal::Face([0, 1, 3]),
            Removal::Edge(0, 1),
            Removal::Face([0, 1, 2]),
            Removal::Face([0, 1, 4]),
            Removal::Edge(0, 1),
        ]
    );
}

#[test]
fn guarded_removals_keep_boundary_simplices() {
    // Two tets sharing face (4,5,6): only that face goes.
    let s = TetSlab {
        tets: vec![[4, 5, 6, 7], [5, 4, 6, 8]],
        neighbors: vec![[NONE, NONE, NONE, 1], [NONE, NONE, NONE, 0]],
        alive: vec![true, true],
        free: vec![],
        mark: vec![1, 1],
        last: 0,
        new_tets: vec![],
    };
    let cavity = vec![0, 1];
    let boundary = s.cavity_boundary(&cavity, 1);
    assert_eq!(boundary.len(), 6);
    assert_eq!(
        s.guarded_removals(&cavity, &boundary),
        vec![Removal::Face([0, 1, 2]), Removal::Face([0, 1, 2])]
    );
}

#[test]
fn refill_of_an_edge_star_wires_six_tets() {
    let mut s = edge_star();
    s.mark = vec![1, 1, 1];
    let cavity = vec![0, 1, 2];
    let boundary = s.cavity_boundary(&cavity, 1);
    assert_eq!(s.refill(9, &cavity, &boundary), 5);
    assert_eq!(s.new_tets, vec![3, 4, 5, 6, 7, 8]);
    assert_eq!(s.free, vec![0, 1, 2]);
    for &nt in &s.new_tets {
        let nt = nt as usize;
        assert!(s.alive[nt]);
        assert_eq!(s.tets[nt][3], 9);
        assert_eq!(s.neighbors[nt][3], NONE);
        // Every base edge is shared with another new tet, which points back.
        for k in 0..3 {
            let nb = s.neighbors[nt][k];
            assert_ne!(nb, NONE);
            assert!(s.neighbors[nb as usize].contains(&(nt as u32)));
        }
    }
    assert_eq!(s.tets().len(), 6);
}

#[test]
fn slot_lookups_skip_super_corners_and_hull() {
    let mut s = edge_star();
    // Internal vertex 4 is public vertex 0.
    assert_eq!(s.tet_at(0), Some([0, 1, 2, 3]));
    assert_eq!(s.tet_at(7), None);
    assert_eq!(s.neighbor_at(0, 2), Some(1));
    assert_eq!(s.neighbor_at(0, 0), None);
    s.alive[1] = false;
    assert_eq!(s.tet_at(1), None);
    let seeded = TetSlab::seeded([0, 1, 2, 3]);
    assert_eq!(seeded.tet_at(0), None);
}
