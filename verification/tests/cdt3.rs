use rapidmesh_tet::cdt3::{classify_regions, invert};

type V3 = [f64; 3];

/// A box of `nx * ny * nz` unit cells, each split into the six Kuhn tets
/// along its main diagonal: grid vertices and tets.
fn kuhn_box(nx: usize, ny: usize, nz: usize) -> (Vec<V3>, Vec<[usize; 4]>) {
    let id = |x: usize, y: usize, z: usize| x + (nx + 1) * (y + (ny + 1) * z);
    let mut pts = Vec::new();
    for z in 0..=nz {
        for y in 0..=ny {
            for x in 0..=nx {
                pts.push([x as f64, y as f64, z as f64]);
            }
        }
    }
    let perms = [[0, 1, 2], [0, 2, 1], [1, 0, 2], [1, 2, 0], [2, 0, 1], [2, 1, 0]];
    let mut tets = Vec::new();
    for z in 0..nz {
        for y in 0..ny {
            for x in 0..nx {
                for p in &perms {
                    let mut c = [x, y, z];
                    let mut t = [id(c[0], c[1], c[2]), 0, 0, 0];
                    for k in 0..3 {
                        c[p[k]] += 1;
                        t[k + 1] = id(c[0], c[1], c[2]);
                    }
                    tets.push(t);
                }
            }
        }
    }
    (pts, tets)
}

fn sub(a: V3, b: V3) -> V3 {
    [a[0] - b[0], a[1] - b[1], a[2] - b[2]]
}

fn dot(a: V3, b: V3) -> f64 {
    a[0] * b[0] + a[1] * b[1] + a[2] * b[2]
}

/// A face on a plane `coord[k] == val`, with the normal `dir` along axis `k`.
fn on_plane(pts: &[V3], f: &[usize; 3], planes: &[(usize, f64, f64, u32, u32)]) -> Option<(u32, u32, V3)> {
    for &(k, val, dir, front, back) in planes {
        if f.iter().all(|&v| pts[v][k] == val) {
            let mut n = [0.0, 0.0, 0.0];
            n[k] = dir;
            return Some((front, back, n));
        }
    }
    None
}

fn classify(pts: &[V3], tets: &[[usize; 4]], planes: &[(usize, f64, f64, u32, u32)]) -> Vec<u32> {
    let surface = |f: &[usize; 3]| on_plane(pts, f, planes).map(|(a, b, _)| (a, b));
    let front = |f: &[usize; 3], apex: usize| match on_plane(pts, f, planes) {
        Some((_, _, n)) => dot(sub(pts[apex], pts[f[0]]), n) > 0.0,
        None => false,
    };
    classify_regions(tets, &surface, &front)
}

/// The six faces of the box `[0, nx] x [0, ny] x [0, nz]`, outward normals,
/// outside tag 0 and inside tag `inside`.
fn box_planes(nx: f64, ny: f64, nz: f64, inside: u32) -> Vec<(usize, f64, f64, u32, u32)> {
    vec![
        (0, 0.0, -1.0, 0, inside),
        (0, nx, 1.0, 0, inside),
        (1, 0.0, -1.0, 0, inside),
        (1, ny, 1.0, 0, inside),
        (2, 0.0, -1.0, 0, inside),
        (2, nz, 1.0, 0, inside),
    ]
}

#[test]
fn cube_region_flood_fill_tags_every_interior_tet() {
    let (pts, tets) = kuhn_box(2, 2, 2);
    let region = classify(&pts, &tets, &box_planes(2.0, 2.0, 2.0, 1));
    assert_eq!(region.len(), tets.len());
    assert!(region.iter().all(|&r| r == 1), "every tet inside the cube is region 1");
}

#[test]
fn interior_wall_separates_two_regions() {
    // A 2 x 1 x 1 box of two material regions: region 1 for x < 1, region 2
    // for x > 1, the wall x == 1 between them, background 0 outside.
    let (pts, tets) = kuhn_box(2, 1, 1);
    let normal = |f: &[usize; 3]| -> Option<(u32, u32, V3)> {
        let cx = f.iter().map(|&v| pts[v][0]).sum::<f64>() / 3.0;
        let half = if cx < 1.0 { 1 } else { 2 };
        if f.iter().all(|&v| pts[v][0] == 1.0) {
            return Some((2, 1, [1.0, 0.0, 0.0]));
        }
        for (k, val, dir) in [(0, 0.0, -1.0), (0, 2.0, 1.0), (1, 0.0, -1.0), (1, 1.0, 1.0), (2, 0.0, -1.0), (2, 1.0, 1.0)] {
            if f.iter().all(|&v| pts[v][k] == val) {
                let mut n = [0.0, 0.0, 0.0];
                n[k] = dir;
                return Some((0, half, n));
            }
        }
        None
    };
    let surface = |f: &[usize; 3]| normal(f).map(|(a, b, _)| (a, b));
    let front = |f: &[usize; 3], apex: usize| match normal(f) {
        Some((_, _, n)) => dot(sub(pts[apex], pts[f[0]]), n) > 0.0,
        None => false,
    };
    let region = classify_regions(&tets, &surface, &front);
    assert_eq!(region.len(), 12);
    for (t, r) in tets.iter().zip(&region) {
        let cx: f64 = t.iter().map(|&v| pts[v][0]).sum::<f64>() / 4.0;
        assert_eq!(*r, if cx < 1.0 { 1 } else { 2 }, "tet {t:?}");
    }
}

#[test]
fn wall_blocks_the_flood_between_halves() {
    // Only the wall x == 1 is a surface: each half floods from the wall with
    // its own side's tag and never crosses to the other half.
    let (pts, tets) = kuhn_box(2, 1, 1);
    let planes = vec![(0, 1.0, 1.0, 2, 1)];
    let region = classify(&pts, &tets, &planes);
    for (t, r) in tets.iter().zip(&region) {
        let cx: f64 = t.iter().map(|&v| pts[v][0]).sum::<f64>() / 4.0;
        assert_eq!(*r, if cx > 1.0 { 2 } else { 1 }, "tet {t:?}");
    }
}

#[test]
fn no_surface_leaves_everything_background() {
    let (pts, tets) = kuhn_box(1, 1, 1);
    let region = classify(&pts, &tets, &[]);
    assert_eq!(region, vec![0; 6]);
}

#[test]
fn empty_mesh_classifies_to_nothing() {
    let region = classify(&[], &[], &[]);
    assert!(region.is_empty());
}

#[test]
fn invert_maps_slots_back_to_vertices() {
    // vertices 0..3 sit in builder slots 2, 0, 2 (a merged duplicate: the
    // last one wins) and 7 (beyond the builder, ignored)
    let b2a = invert(&[2, 0, 2, 7], 4);
    assert_eq!(b2a, vec![1, usize::MAX, 2, usize::MAX]);
    assert_eq!(invert(&[], 2), vec![usize::MAX, usize::MAX]);
    assert!(invert(&[0, 1], 0).is_empty());
}
