use rapidmesh_tet::regions::{classify_tet_regions, face_region_map};
use rustc_hash::FxHashMap;

fn sorted(mut f: [usize; 3]) -> [usize; 3] {
    f.sort();
    f
}

/// Every face of every tet keyed to the tets that own it.
fn owners(tets: &[[usize; 4]]) -> FxHashMap<[usize; 3], Vec<u32>> {
    let mut m: FxHashMap<[usize; 3], Vec<u32>> = FxHashMap::default();
    for (ti, t) in tets.iter().enumerate() {
        for i in 0..4 {
            let f: Vec<usize> = (0..4).filter(|&k| k != i).map(|k| t[k]).collect();
            m.entry(sorted([f[0], f[1], f[2]])).or_default().push(ti as u32);
        }
    }
    m
}

#[test]
fn later_patch_faces_override() {
    let regions = [[1, 2], [3, 0]];
    let tilings = vec![vec![[2, 1, 0], [3, 4, 5]], vec![[0, 1, 2]]];
    let m = face_region_map(&regions, &tilings);
    assert_eq!(m.len(), 2);
    assert_eq!(m[&[0, 1, 2]], [3, 0]);
    assert_eq!(m[&[3, 4, 5]], [1, 2]);
}

#[test]
fn region_switches_across_a_patch_face() {
    let tets = [[0, 1, 2, 3], [1, 2, 3, 4]];
    let own = owners(&tets);
    let mut fr: FxHashMap<[usize; 3], [u32; 2]> = FxHashMap::default();
    fr.insert([1, 2, 3], [5, 7]);
    let seed = |t: usize| if t == 0 { 5 } else { 9 };
    assert_eq!(classify_tet_regions(&tets, &fr, &own, &seed), vec![5, 7]);
}

#[test]
fn region_spreads_across_plain_faces() {
    let tets = [[0, 1, 2, 3], [1, 2, 3, 4], [2, 3, 4, 5]];
    let own = owners(&tets);
    let fr: FxHashMap<[usize; 3], [u32; 2]> = FxHashMap::default();
    let seed = |t: usize| t as u32 + 10;
    assert_eq!(classify_tet_regions(&tets, &fr, &own, &seed), vec![10, 10, 10]);
}

#[test]
fn foreign_patch_face_stops_the_fill() {
    let tets = [[0, 1, 2, 3], [1, 2, 3, 4]];
    let own = owners(&tets);
    let mut fr: FxHashMap<[usize; 3], [u32; 2]> = FxHashMap::default();
    fr.insert([1, 2, 3], [8, 9]);
    let seed = |t: usize| if t == 0 { 5 } else { 9 };
    assert_eq!(classify_tet_regions(&tets, &fr, &own, &seed), vec![5, 9]);
}
