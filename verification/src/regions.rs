//! Region labels of a tet mesh: the region pair of every patch face, and
//! the flood fill that carries region labels from tet to tet, switching to
//! the other region across a patch face.
use crate::fxmap::{fx_empty, fx_get, fx_get_list, fx_insert};
use crate::topology::{face_key, sorted3};
use rustc_hash::FxHashMap;
use vstd::prelude::*;

verus! {

/// The sorted key of face `i` of tet `t` (the face without vertex `i`).
pub open spec fn tet_face_key(t: [usize; 4], i: int) -> [usize; 3] {
    if i == 0 {
        face_key([t[1], t[2], t[3]])
    } else if i == 1 {
        face_key([t[0], t[2], t[3]])
    } else if i == 2 {
        face_key([t[0], t[1], t[3]])
    } else {
        face_key([t[0], t[1], t[2]])
    }
}

/// The region on the far side of a face from region `cur`: across a patch
/// face with regions `[a, b]` it is the other one of the two (none if
/// `cur` is neither); across any other face it is `cur`.
pub open spec fn region_across(cur: u32, patch: Option<[u32; 2]>) -> Option<u32> {
    match patch {
        Some(p) => if p[0] == cur {
            Some(p[1])
        } else if p[1] == cur {
            Some(p[0])
        } else {
            None
        },
        None => Some(cur),
    }
}

/// The patch regions of face `k`, if it is a patch face.
pub open spec fn patch_of(face_regions: Map<[usize; 3], [u32; 2]>, k: [usize; 3]) -> Option<[u32; 2]> {
    if face_regions.contains_key(k) {
        Some(face_regions[k])
    } else {
        None
    }
}

/// What the seed oracle `r` answers for tet `t`: the region holding it
/// (by a point-in-solid test of its centroid; `0` for none).
pub open spec fn seed_says<R: Fn(usize) -> u32>(r: R, t: usize) -> u32 {
    choose|x: u32| call_ensures(r, (t,), x)
}

/// `r` answers every tet, and always the same way.
pub open spec fn is_seed_oracle<R: Fn(usize) -> u32>(r: R) -> bool {
    &&& forall|t: usize| #[trigger] call_requires(r, (t,))
    &&& forall|t: usize, x: u32, y: u32| #[trigger] call_ensures(r, (t,), x) && #[trigger] call_ensures(r, (t,), y) ==> x == y
}

fn seed_of<R: Fn(usize) -> u32>(r: &R, t: usize) -> (x: u32)
    requires
        is_seed_oracle(*r),
    ensures
        x == seed_says(*r, t),
{
    r(t)
}

/// Every face of every tet has an owner list, of tet indices.
pub open spec fn owners_complete(tets: Seq<[usize; 4]>, owners: Map<[usize; 3], Vec<u32>>) -> bool {
    forall|t: int, i: int|
        0 <= t < tets.len() && 0 <= i < 4 ==> owners.contains_key(#[trigger] tet_face_key(tets[t], i)) && forall|j: int|
            0 <= j < owners[tet_face_key(tets[t], i)]@.len() ==> (#[trigger] owners[tet_face_key(tets[t], i)]@[j])
                < tets.len()
}

/// Tet `t` took its region from tet `u` across face `i` of `u`: it is an
/// owner of that face and its region is the one across it from `u`'s.
pub open spec fn took_region(
    tets: Seq<[usize; 4]>,
    face_regions: Map<[usize; 3], [u32; 2]>,
    owners: Map<[usize; 3], Vec<u32>>,
    reg: Seq<Option<u32>>,
    t: int,
) -> bool {
    exists|u: int, i: int|
        0 <= u < tets.len() && u != t && 0 <= i < 4 && owners[tet_face_key(tets[u], i)]@.contains(t as u32)
            && reg[u] is Some && #[trigger] region_across(reg[u]->0, patch_of(face_regions, tet_face_key(tets[u], i)))
            == reg[t]
}

/// Every labelled tet carries its seed region or one taken from a
/// labelled neighbor.
pub open spec fn labels_justified<R: Fn(usize) -> u32>(
    tets: Seq<[usize; 4]>,
    face_regions: Map<[usize; 3], [u32; 2]>,
    owners: Map<[usize; 3], Vec<u32>>,
    seed: R,
    reg: Seq<Option<u32>>,
) -> bool {
    forall|t: int|
        0 <= t < reg.len() && #[trigger] reg[t] is Some ==> reg[t]->0 == seed_says(seed, t as usize) || took_region(
            tets,
            face_regions,
            owners,
            reg,
            t,
        )
}

/// Setting an unlabelled tet keeps every earlier justification.
proof fn lemma_justified_set<R: Fn(usize) -> u32>(
    tets: Seq<[usize; 4]>,
    face_regions: Map<[usize; 3], [u32; 2]>,
    owners: Map<[usize; 3], Vec<u32>>,
    seed: R,
    reg: Seq<Option<u32>>,
    x: int,
    v: u32,
)
    requires
        labels_justified(tets, face_regions, owners, seed, reg),
        reg.len() == tets.len(),
        0 <= x < reg.len(),
        reg[x] is None,
        v == seed_says(seed, x as usize) || took_region(tets, face_regions, owners, reg.update(x, Some(v)), x),
    ensures
        labels_justified(tets, face_regions, owners, seed, reg.update(x, Some(v))),
{
    let r2 = reg.update(x, Some(v));
    assert forall|t: int| 0 <= t < r2.len() && #[trigger] r2[t] is Some implies r2[t]->0 == seed_says(seed, t as usize)
        || took_region(tets, face_regions, owners, r2, t) by {
        if t != x {
            if r2[t]->0 != seed_says(seed, t as usize) {
                assert(took_region(tets, face_regions, owners, reg, t));
                let (u, i) = choose|u: int, i: int|
                    0 <= u < tets.len() && u != t && 0 <= i < 4 && owners[tet_face_key(tets[u], i)]@.contains(t as u32)
                        && reg[u] is Some && #[trigger] region_across(
                        reg[u]->0,
                        patch_of(face_regions, tet_face_key(tets[u], i)),
                    ) == reg[t];
                assert(reg[u] is Some);
                assert(u != x);
                assert(r2[u] == reg[u]);
                assert(r2[t] == reg[t]);
                assert(region_across(r2[u]->0, patch_of(face_regions, tet_face_key(tets[u], i))) == r2[t]);
            }
        }
    }
}

/// Labelled tet `u` passes a region to tet `t` in the flood: `t` is
/// another owner of a face of `u`, and some region lies across that face
/// from `u`'s.
pub open spec fn passes_to(
    tets: Seq<[usize; 4]>,
    face_regions: Map<[usize; 3], [u32; 2]>,
    owners: Map<[usize; 3], Vec<u32>>,
    reg: Seq<Option<u32>>,
    u: int,
    t: int,
) -> bool {
    exists|i: int|
        #![trigger tet_face_key(tets[u], i)]
        0 <= i < 4 && t != u && t <= u32::MAX && owners[tet_face_key(tets[u], i)]@.contains(t as u32) && reg[u] is Some && region_across(
            reg[u]->0,
            patch_of(face_regions, tet_face_key(tets[u], i)),
        ) is Some
}

/// Every tet that labelled tet `u` passes a region to is labelled.
spec fn flood_closed(
    tets: Seq<[usize; 4]>,
    face_regions: Map<[usize; 3], [u32; 2]>,
    owners: Map<[usize; 3], Vec<u32>>,
    reg: Seq<Option<u32>>,
    u: int,
) -> bool {
    forall|t: int| 0 <= t < reg.len() && #[trigger] passes_to(tets, face_regions, owners, reg, u, t) ==> reg[t] is Some
}

/// The labels of the flood so far: a labelled tet outside `roots` took its
/// region from a neighbour; the roots are seeds up to `seed` to which no
/// lower tet passes a region.
spec fn fill_state(
    tets: Seq<[usize; 4]>,
    face_regions: Map<[usize; 3], [u32; 2]>,
    owners: Map<[usize; 3], Vec<u32>>,
    reg: Seq<Option<u32>>,
    roots: Set<int>,
    seed: int,
) -> bool {
    &&& forall|t: int|
        0 <= t < reg.len() && reg[t] is Some && !roots.contains(t) ==> #[trigger] took_region(
            tets,
            face_regions,
            owners,
            reg,
            t,
        )
    &&& forall|t: int|
        #[trigger] roots.contains(t) ==> 0 <= t <= seed && t < reg.len() && reg[t] is Some && forall|u: int|
            0 <= u < t ==> !passes_to(tets, face_regions, owners, reg, u, t)
}

/// Labelling an unlabelled tet keeps every earlier flood closure.
proof fn lemma_closed_stays(
    tets: Seq<[usize; 4]>,
    face_regions: Map<[usize; 3], [u32; 2]>,
    owners: Map<[usize; 3], Vec<u32>>,
    reg: Seq<Option<u32>>,
    x: int,
    v: u32,
)
    requires
        0 <= x < reg.len(),
        reg[x] is None,
    ensures
        forall|u: int|
            0 <= u < reg.len() && reg[u] is Some && flood_closed(tets, face_regions, owners, reg, u) ==> #[trigger] flood_closed(
                tets,
                face_regions,
                owners,
                reg.update(x, Some(v)),
                u,
            ),
{
    let r2 = reg.update(x, Some(v));
    assert forall|u: int|
        0 <= u < reg.len() && reg[u] is Some && flood_closed(tets, face_regions, owners, reg, u) implies #[trigger] flood_closed(
            tets,
            face_regions,
            owners,
            r2,
            u,
        ) by {
        assert forall|t: int| 0 <= t < r2.len() && #[trigger] passes_to(tets, face_regions, owners, r2, u, t) implies r2[t] is Some by {
            assert(r2[u] == reg[u]);
            let i = choose|i: int|
                #![trigger tet_face_key(tets[u], i)]
                0 <= i < 4 && t != u && t <= u32::MAX && owners[tet_face_key(tets[u], i)]@.contains(t as u32) && r2[u] is Some && region_across(
                    r2[u]->0,
                    patch_of(face_regions, tet_face_key(tets[u], i)),
                ) is Some;
            assert(passes_to(tets, face_regions, owners, reg, u, t));
        }
    }
}

/// Labelling an unlabelled tet above every root, with a region taken from
/// a neighbour, keeps the flood's labels accounted for.
proof fn lemma_fill_nonroot(
    tets: Seq<[usize; 4]>,
    face_regions: Map<[usize; 3], [u32; 2]>,
    owners: Map<[usize; 3], Vec<u32>>,
    reg: Seq<Option<u32>>,
    roots: Set<int>,
    seed: int,
    x: int,
    v: u32,
)
    requires
        fill_state(tets, face_regions, owners, reg, roots, seed),
        reg.len() == tets.len(),
        0 <= seed < x < reg.len(),
        reg[x] is None,
        took_region(tets, face_regions, owners, reg.update(x, Some(v)), x),
    ensures
        fill_state(tets, face_regions, owners, reg.update(x, Some(v)), roots, seed),
{
    let r2 = reg.update(x, Some(v));
    assert forall|t: int| 0 <= t < r2.len() && r2[t] is Some && !roots.contains(t) implies #[trigger] took_region(
        tets,
        face_regions,
        owners,
        r2,
        t,
    ) by {
        if t != x {
            assert(took_region(tets, face_regions, owners, reg, t));
            let (u, i) = choose|u: int, i: int|
                0 <= u < tets.len() && u != t && 0 <= i < 4 && owners[tet_face_key(tets[u], i)]@.contains(t as u32)
                    && reg[u] is Some && #[trigger] region_across(reg[u]->0, patch_of(face_regions, tet_face_key(tets[u], i)))
                    == reg[t];
            assert(r2[u] == reg[u] && r2[t] == reg[t]);
            assert(region_across(r2[u]->0, patch_of(face_regions, tet_face_key(tets[u], i))) == r2[t]);
        }
    }
    assert forall|t: int| #[trigger] roots.contains(t) implies 0 <= t <= seed && t < r2.len() && r2[t] is Some && forall|u: int|
        0 <= u < t ==> !passes_to(tets, face_regions, owners, r2, u, t) by {
        assert forall|u: int| 0 <= u < t implies !passes_to(tets, face_regions, owners, r2, u, t) by {
            assert(r2[u] == reg[u]);
            assert(!passes_to(tets, face_regions, owners, reg, u, t));
        }
    }
}

/// Seeding the unlabelled tet `seed`, when every lower tet is labelled
/// and closed, makes it a root.
proof fn lemma_fill_root(
    tets: Seq<[usize; 4]>,
    face_regions: Map<[usize; 3], [u32; 2]>,
    owners: Map<[usize; 3], Vec<u32>>,
    reg: Seq<Option<u32>>,
    roots: Set<int>,
    seed: int,
    v: u32,
)
    requires
        fill_state(tets, face_regions, owners, reg, roots, seed - 1),
        reg.len() == tets.len(),
        0 <= seed < reg.len(),
        reg[seed] is None,
        forall|u: int| 0 <= u < seed ==> reg[u] is Some && #[trigger] flood_closed(tets, face_regions, owners, reg, u),
    ensures
        fill_state(tets, face_regions, owners, reg.update(seed, Some(v)), roots.insert(seed), seed),
{
    let r2 = reg.update(seed, Some(v));
    let ro2 = roots.insert(seed);
    assert forall|u: int| 0 <= u < seed implies !passes_to(tets, face_regions, owners, reg, u, seed) by {
        assert(flood_closed(tets, face_regions, owners, reg, u));
    }
    assert forall|t: int| 0 <= t < r2.len() && r2[t] is Some && !ro2.contains(t) implies #[trigger] took_region(
        tets,
        face_regions,
        owners,
        r2,
        t,
    ) by {
        assert(took_region(tets, face_regions, owners, reg, t));
        let (u, i) = choose|u: int, i: int|
            0 <= u < tets.len() && u != t && 0 <= i < 4 && owners[tet_face_key(tets[u], i)]@.contains(t as u32)
                && reg[u] is Some && #[trigger] region_across(reg[u]->0, patch_of(face_regions, tet_face_key(tets[u], i)))
                == reg[t];
        assert(r2[u] == reg[u] && r2[t] == reg[t]);
        assert(region_across(r2[u]->0, patch_of(face_regions, tet_face_key(tets[u], i))) == r2[t]);
    }
    assert forall|t: int| #[trigger] ro2.contains(t) implies 0 <= t <= seed && t < r2.len() && r2[t] is Some && forall|u: int|
        0 <= u < t ==> !passes_to(tets, face_regions, owners, r2, u, t) by {
        assert forall|u: int| 0 <= u < t implies !passes_to(tets, face_regions, owners, r2, u, t) by {
            assert(r2[u] == reg[u]);
            if t != seed {
                assert(roots.contains(t));
            }
            assert(!passes_to(tets, face_regions, owners, reg, u, t));
        }
    }
}

/// Labels as the flood records them: every region present.
pub open spec fn labels_of(r: Seq<u32>) -> Seq<Option<u32>> {
    r.map_values(|x: u32| Some(x))
}

/// Per-tet regions by flood fill: each still unlabelled tet, in index
/// order, seeds a fill with the seed oracle's region; a labelled tet passes
/// to the unlabelled other owners of each of its faces (in face order) the
/// region across that face (its own across a plain face, the other patch
/// region across a patch face it borders; nothing across a patch face of
/// two other regions).
#[verifier::rlimit(60)]
pub fn classify_tet_regions<R: Fn(usize) -> u32>(
    tets: &[[usize; 4]],
    face_regions: &FxHashMap<[usize; 3], [u32; 2]>,
    face_owners: &FxHashMap<[usize; 3], Vec<u32>>,
    seed_region: &R,
) -> (r: Vec<u32>)
    requires
        owners_complete(tets@, face_owners@),
        is_seed_oracle(*seed_region),
    ensures
        r@.len() == tets@.len(),
        labels_justified(tets@, face_regions@, face_owners@, *seed_region, r@.map_values(|x: u32| Some(x))),
        forall|u: int, t: int|
            0 <= u < t < tets@.len() && #[trigger] passes_to(tets@, face_regions@, face_owners@, labels_of(r@), u, t)
                ==> took_region(tets@, face_regions@, face_owners@, labels_of(r@), t),
{
    let n = tets.len();
    let ghost fr = face_regions@;
    let ghost ow = face_owners@;
    let mut region_of: Vec<Option<u32>> = Vec::new();
    let mut q: usize = 0;
    while q < n
        invariant
            q <= n,
            region_of@.len() == q,
            forall|t: int| 0 <= t < q ==> (#[trigger] region_of@[t]) is None,
        decreases n - q,
    {
        region_of.push(None);
        q += 1;
    }
    let mut stack: Vec<usize> = Vec::new();
    let mut seed: usize = 0;
    let ghost mut roots: Set<int> = Set::empty();
    while seed < n
        invariant
            n == tets@.len(),
            fr == face_regions@,
            ow == face_owners@,
            owners_complete(tets@, ow),
            is_seed_oracle(*seed_region),
            seed <= n,
            region_of@.len() == n,
            stack@.len() == 0,
            forall|t: int| 0 <= t < seed ==> (#[trigger] region_of@[t]) is Some,
            labels_justified(tets@, fr, ow, *seed_region, region_of@),
            fill_state(tets@, fr, ow, region_of@, roots, seed - 1),
            forall|u: int| 0 <= u < n && (#[trigger] region_of@[u]) is Some ==> flood_closed(tets@, fr, ow, region_of@, u),
        decreases n - seed,
    {
        if region_of[seed].is_none() {
            let v = seed_of(seed_region, seed);
            proof {
                lemma_justified_set(tets@, fr, ow, *seed_region, region_of@, seed as int, v);
                lemma_fill_root(tets@, fr, ow, region_of@, roots, seed as int, v);
                lemma_closed_stays(tets@, fr, ow, region_of@, seed as int, v);
                roots = roots.insert(seed as int);
            }
            let ghost reg_before = region_of@;
            region_of.set(seed, Some(v));
            stack.push(seed);
            proof {
                assert forall|u: int|
                    0 <= u < n && (#[trigger] region_of@[u]) is Some implies flood_closed(tets@, fr, ow, region_of@, u)
                        || stack@.contains(u as usize) by {
                    if u == seed as int {
                        assert(stack@[0] == seed);
                    } else {
                        assert(reg_before[u] is Some);
                        assert(flood_closed(tets@, fr, ow, reg_before, u));
                    }
                }
            }
            let ghost mut unas: Set<int> = Set::new(|x: int| 0 <= x < n && region_of@[x] is None);
            proof {
                vstd::set_lib::lemma_int_range(0, n as int);
                vstd::set_lib::lemma_len_subset(unas, vstd::set_lib::set_int_range(0, n as int));
            }
            while stack.len() > 0
                invariant
                    n == tets@.len(),
                    fr == face_regions@,
                    ow == face_owners@,
                    owners_complete(tets@, ow),
                    is_seed_oracle(*seed_region),
                    seed < n,
                    region_of@.len() == n,
                    region_of@[seed as int] is Some,
                    forall|t: int| 0 <= t < seed ==> (#[trigger] region_of@[t]) is Some,
                    forall|j: int|
                        0 <= j < stack@.len() ==> (#[trigger] stack@[j]) < n && region_of@[stack@[j] as int] is Some,
                    labels_justified(tets@, fr, ow, *seed_region, region_of@),
                    unas == Set::new(|x: int| 0 <= x < n && region_of@[x] is None),
                    unas.finite(),
                    fill_state(tets@, fr, ow, region_of@, roots, seed as int),
                    forall|u: int|
                        0 <= u < n && (#[trigger] region_of@[u]) is Some ==> flood_closed(tets@, fr, ow, region_of@, u)
                            || stack@.contains(u as usize),
                decreases unas.len() * 2 + stack@.len(),
            {
                let ghost stk0 = stack@;
                let ti = match stack.pop() {
                    Some(x) => x,
                    None => 0,
                };
                proof {
                    assert forall|u: int|
                        0 <= u < n && (#[trigger] region_of@[u]) is Some implies flood_closed(tets@, fr, ow, region_of@, u)
                            || stack@.contains(u as usize) || u == ti as int by {
                        if stk0.contains(u as usize) && u != ti as int {
                            let j = choose|j: int| 0 <= j < stk0.len() && stk0[j] == u as usize;
                            assert(stack@[j] == u as usize);
                        }
                    }
                }
                let cur = match region_of[ti] {
                    Some(c) => c,
                    None => 0,
                };
                let t = tets[ti];
                let ghost unas0 = unas;
                let ghost st0 = stack@.len();
                let mut i: usize = 0;
                while i < 4
                    invariant
                        n == tets@.len(),
                        fr == face_regions@,
                        ow == face_owners@,
                        owners_complete(tets@, ow),
                        ti < n,
                        t == tets@[ti as int],
                        region_of@.len() == n,
                        region_of@[ti as int] == Some(cur),
                        region_of@[seed as int] is Some,
                        forall|x: int| 0 <= x < seed ==> (#[trigger] region_of@[x]) is Some,
                        forall|j: int|
                            0 <= j < stack@.len() ==> (#[trigger] stack@[j]) < n && region_of@[stack@[j] as int] is Some,
                        labels_justified(tets@, fr, ow, *seed_region, region_of@),
                        unas == Set::new(|x: int| 0 <= x < n && region_of@[x] is None),
                        unas.finite(),
                        unas.subset_of(unas0),
                        unas.len() * 2 + stack@.len() <= unas0.len() * 2 + st0,
                        i <= 4,
                        fill_state(tets@, fr, ow, region_of@, roots, seed as int),
                        forall|u: int|
                            0 <= u < n && (#[trigger] region_of@[u]) is Some ==> flood_closed(tets@, fr, ow, region_of@, u)
                                || stack@.contains(u as usize) || u == ti as int,
                        forall|i2: int, t2: int|
                            #![trigger region_across(cur, patch_of(fr, tet_face_key(tets@[ti as int], i2))), region_of@[t2]]
                            0 <= i2 < i && 0 <= t2 < n && t2 != ti as int && t2 <= u32::MAX && ow[tet_face_key(tets@[ti as int], i2)]@.contains(
                                t2 as u32,
                            ) && region_across(cur, patch_of(fr, tet_face_key(tets@[ti as int], i2))) is Some
                                && ow[tet_face_key(tets@[ti as int], i2)]@.contains(t2 as u32) ==> region_of@[t2] is Some,
                    decreases 4 - i,
                {
                    let key = if i == 0 {
                        sorted3([t[1], t[2], t[3]])
                    } else if i == 1 {
                        sorted3([t[0], t[2], t[3]])
                    } else if i == 2 {
                        sorted3([t[0], t[1], t[3]])
                    } else {
                        sorted3([t[0], t[1], t[2]])
                    };
                    proof {
                        assert(key == tet_face_key(tets@[ti as int], i as int));
                    }
                    let next: Option<u32> = match fx_get(face_regions, &key) {
                        Some(p) => {
                            if p[0] == cur {
                                Some(p[1])
                            } else if p[1] == cur {
                                Some(p[0])
                            } else {
                                None
                            }
                        },
                        None => Some(cur),
                    };
                    proof {
                        assert(next == region_across(cur, patch_of(fr, key)));
                    }
                    if let Some(nr) = next {
                        let owners = match fx_get_list(face_owners, &key) {
                            Some(v) => v,
                            None => Vec::new(),
                        };
                        proof {
                            assert(ow.contains_key(key));
                            assert(owners@ == ow[key]@);
                        }
                        let mut k: usize = 0;
                        while k < owners.len()
                            invariant
                                n == tets@.len(),
                                fr == face_regions@,
                                ow == face_owners@,
                                owners_complete(tets@, ow),
                                ti < n,
                                t == tets@[ti as int],
                                key == tet_face_key(tets@[ti as int], i as int),
                                i < 4,
                                owners@ == ow[key]@,
                                forall|j: int| 0 <= j < owners@.len() ==> (#[trigger] owners@[j]) < n,
                                next == Some(nr),
                                next == region_across(cur, patch_of(fr, key)),
                                region_of@.len() == n,
                                region_of@[ti as int] == Some(cur),
                                region_of@[seed as int] is Some,
                                forall|x: int| 0 <= x < seed ==> (#[trigger] region_of@[x]) is Some,
                                forall|j: int|
                                    0 <= j < stack@.len() ==> (#[trigger] stack@[j]) < n && region_of@[stack@[j] as int]
                                        is Some,
                                labels_justified(tets@, fr, ow, *seed_region, region_of@),
                                unas == Set::new(|x: int| 0 <= x < n && region_of@[x] is None),
                                unas.finite(),
                                unas.subset_of(unas0),
                                unas.len() * 2 + stack@.len() <= unas0.len() * 2 + st0,
                                k <= owners@.len(),
                                fill_state(tets@, fr, ow, region_of@, roots, seed as int),
                                forall|u: int|
                                    0 <= u < n && (#[trigger] region_of@[u]) is Some ==> flood_closed(tets@, fr, ow, region_of@, u)
                                        || stack@.contains(u as usize) || u == ti as int,
                                forall|i2: int, t2: int|
                                    #![trigger region_across(cur, patch_of(fr, tet_face_key(tets@[ti as int], i2))), region_of@[t2]]
                                    0 <= i2 < i && 0 <= t2 < n && t2 != ti as int && t2 <= u32::MAX && ow[tet_face_key(tets@[ti as int], i2)]@.contains(
                                        t2 as u32,
                                    ) && region_across(cur, patch_of(fr, tet_face_key(tets@[ti as int], i2))) is Some
                                        && ow[tet_face_key(tets@[ti as int], i2)]@.contains(t2 as u32) ==> region_of@[t2] is Some,
                                forall|j: int|
                                    0 <= j < k && (owners@[j] as int) != ti as int ==> region_of@[#[trigger] owners@[j] as int]
                                        is Some,
                            decreases owners@.len() - k,
                        {
                            proof {
                                assert(owners_complete(tets@, ow));
                                assert(ow.contains_key(tet_face_key(tets@[ti as int], i as int)));
                            }
                            let nb = owners[k] as usize;
                            let ghost reg_k = region_of@;
                            let ghost stk_k = stack@;
                            if nb != ti && region_of[nb].is_none() {
                                proof {
                                    let r2 = region_of@.update(nb as int, Some(nr));
                                    assert(owners@[k as int] == nb as u32);
                                    assert(ow[tet_face_key(tets@[ti as int], i as int)]@.contains(nb as u32));
                                    assert(r2[ti as int] == Some(cur));
                                    assert(region_across(r2[ti as int]->0, patch_of(fr, tet_face_key(tets@[ti as int], i as int)))
                                        == r2[nb as int]);
                                    assert(took_region(tets@, fr, ow, r2, nb as int));
                                    lemma_justified_set(tets@, fr, ow, *seed_region, region_of@, nb as int, nr);
                                    lemma_fill_nonroot(tets@, fr, ow, region_of@, roots, seed as int, nb as int, nr);
                                    lemma_closed_stays(tets@, fr, ow, region_of@, nb as int, nr);
                                }
                                region_of.set(nb, Some(nr));
                                stack.push(nb);
                                proof {
                                    assert forall|u: int|
                                        0 <= u < n && (#[trigger] region_of@[u]) is Some implies flood_closed(
                                            tets@,
                                            fr,
                                            ow,
                                            region_of@,
                                            u,
                                        ) || stack@.contains(u as usize) || u == ti as int by {
                                        if u == nb as int {
                                            assert(stack@[stack@.len() - 1] == nb);
                                        } else {
                                            assert(reg_k[u] is Some);
                                            if stk_k.contains(u as usize) {
                                                let j = choose|j: int| 0 <= j < stk_k.len() && stk_k[j] == u as usize;
                                                assert(stack@[j] == u as usize);
                                            } else if u != ti as int {
                                                assert(flood_closed(tets@, fr, ow, reg_k, u));
                                            }
                                        }
                                    }
                                    let u2 = Set::new(|x: int| 0 <= x < n && region_of@[x] is None);
                                    assert(u2 =~= unas.remove(nb as int));
                                    unas = u2;
                                }
                            }
                            proof {
                                assert forall|j: int|
                                    0 <= j < k + 1 && (owners@[j] as int) != ti as int implies region_of@[#[trigger] owners@[j] as int]
                                        is Some by {
                                    if j < k {
                                        assert(reg_k[owners@[j] as int] is Some);
                                    }
                                }
                            }
                            k += 1;
                        }
                        proof {
                            assert forall|t2: int|
                                0 <= t2 < n && t2 != ti as int && t2 <= u32::MAX && ow[tet_face_key(tets@[ti as int], i as int)]@.contains(t2 as u32)
                                    implies region_of@[t2] is Some by {
                                let j = choose|j: int| 0 <= j < owners@.len() && owners@[j] == t2 as u32;
                                assert(owners@[j] as int == t2);
                            }
                        }
                    }
                    i += 1;
                }
                proof {
                    assert forall|t2: int| 0 <= t2 < region_of@.len() && #[trigger] passes_to(tets@, fr, ow, region_of@, ti as int, t2)
                        implies region_of@[t2] is Some by {
                        let i2 = choose|i2: int|
                            #![trigger tet_face_key(tets@[ti as int], i2)]
                            0 <= i2 < 4 && t2 != ti as int && t2 <= u32::MAX && ow[tet_face_key(tets@[ti as int], i2)]@.contains(t2 as u32)
                                && region_of@[ti as int] is Some && region_across(
                                region_of@[ti as int]->0,
                                patch_of(fr, tet_face_key(tets@[ti as int], i2)),
                            ) is Some;
                        assert(region_across(cur, patch_of(fr, tet_face_key(tets@[ti as int], i2))) is Some);
                    }
                    assert(flood_closed(tets@, fr, ow, region_of@, ti as int));
                }
            }
        }
        seed += 1;
    }
    let mut out: Vec<u32> = Vec::new();
    let mut j: usize = 0;
    while j < n
        invariant
            n == tets@.len(),
            region_of@.len() == n,
            forall|t: int| 0 <= t < n ==> (#[trigger] region_of@[t]) is Some,
            j <= n,
            out@.len() == j,
            forall|t: int| 0 <= t < j ==> Some(#[trigger] out@[t]) == region_of@[t],
        decreases n - j,
    {
        let x = match region_of[j] {
            Some(x) => x,
            None => 0,
        };
        out.push(x);
        j += 1;
    }
    proof {
        assert(out@.map_values(|x: u32| Some(x)) =~= region_of@);
        assert(labels_of(out@) =~= region_of@);
        assert forall|u: int, t: int|
            0 <= u < t < tets@.len() && #[trigger] passes_to(tets@, fr, ow, region_of@, u, t) implies took_region(
                tets@,
                fr,
                ow,
                region_of@,
                t,
            ) by {
            if roots.contains(t) {
                assert(!passes_to(tets@, fr, ow, region_of@, u, t));
            }
            assert(region_of@[t] is Some);
        }
    }
    out
}


/// `m` with every face of `faces`, in order, keyed to the regions `r`.
pub open spec fn insert_faces(m: Map<[usize; 3], [u32; 2]>, faces: Seq<[usize; 3]>, r: [u32; 2]) -> Map<[usize; 3], [u32; 2]>
    decreases faces.len(),
{
    if faces.len() == 0 {
        m
    } else {
        insert_faces(m, faces.drop_last(), r).insert(face_key(faces.last()), r)
    }
}

/// The face-to-regions map of the first `p` patches: each tiling face
/// keyed to its patch's (front, back) regions, later patches overriding.
pub open spec fn patch_face_map(regions: Seq<[u32; 2]>, tilings: Seq<Seq<[usize; 3]>>, p: int) -> Map<[usize; 3], [u32; 2]>
    decreases p,
{
    if p <= 0 {
        Map::empty()
    } else {
        insert_faces(patch_face_map(regions, tilings, p - 1), tilings[p - 1], regions[p - 1])
    }
}

/// The region pair of every patch tiling face (sorted key), patch by patch
/// and face by face, a later entry overriding an earlier one.
pub fn face_region_map(patch_regions: &[[u32; 2]], tilings: &Vec<Vec<[usize; 3]>>) -> (m: FxHashMap<[usize; 3], [u32; 2]>)
    requires
        tilings@.len() >= patch_regions@.len(),
    ensures
        m@ == patch_face_map(
            patch_regions@,
            tilings@.map_values(|v: Vec<[usize; 3]>| v@),
            patch_regions@.len() as int,
        ),
{
    let ghost tl = tilings@.map_values(|v: Vec<[usize; 3]>| v@);
    let mut m: FxHashMap<[usize; 3], [u32; 2]> = fx_empty();
    let mut p: usize = 0;
    while p < patch_regions.len()
        invariant
            tilings@.len() >= patch_regions@.len(),
            tl == tilings@.map_values(|v: Vec<[usize; 3]>| v@),
            p <= patch_regions@.len(),
            m@ == patch_face_map(patch_regions@, tl, p as int),
        decreases patch_regions@.len() - p,
    {
        let r = patch_regions[p];
        let faces = &tilings[p];
        let ghost m0 = m@;
        proof {
            assert(tl[p as int] == faces@);
        }
        let mut j: usize = 0;
        while j < faces.len()
            invariant
                j <= faces@.len(),
                m@ == insert_faces(m0, faces@.subrange(0, j as int), r),
            decreases faces@.len() - j,
        {
            let k = sorted3(faces[j]);
            fx_insert(&mut m, k, r);
            proof {
                let sub = faces@.subrange(0, j + 1);
                assert(sub.drop_last() =~= faces@.subrange(0, j as int));
                assert(sub.last() == faces@[j as int]);
            }
            j += 1;
        }
        proof {
            assert(faces@.subrange(0, faces@.len() as int) =~= faces@);
            assert(patch_face_map(patch_regions@, tl, p + 1) == insert_faces(
                patch_face_map(patch_regions@, tl, p as int),
                tl[p as int],
                patch_regions@[p as int],
            ));
        }
        p += 1;
    }
    m
}

} // verus!
