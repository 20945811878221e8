//! Region classification of a boundary-conforming tetrahedralization: each
//! tet gets a region tag by a flood fill across tet faces that the surface
//! blocks, seeded by the side of the surface each surface-facing tet lies on.
use crate::fxmap::{fx_empty, fx_get, fx_insert, fx_keys};
use crate::topology::{face_key, sorted3};
use rustc_hash::FxHashMap;
use vstd::prelude::*;

verus! {

broadcast use vstd::array::group_array_axioms;

/// Face `i` of tet `t` in the flood fill's face order: the vertex triples
/// `012`, `013`, `023`, `123`.
pub open spec fn plain_face(t: [usize; 4], i: int) -> [usize; 3] {
    if i == 0 {
        [t[0], t[1], t[2]]
    } else if i == 1 {
        [t[0], t[1], t[3]]
    } else if i == 2 {
        [t[0], t[2], t[3]]
    } else {
        [t[1], t[2], t[3]]
    }
}

/// Sorted key of face `i` of tet `t`.
pub open spec fn fkey(t: [usize; 4], i: int) -> [usize; 3] {
    face_key(plain_face(t, i))
}

/// Some face of `t` has key `f`.
pub open spec fn has_face_key(t: [usize; 4], f: [usize; 3]) -> bool {
    exists|i: int| 0 <= i < 4 && #[trigger] fkey(t, i) == f
}

/// `v` is a corner of triangle `f`.
pub open spec fn in3(f: [usize; 3], v: usize) -> bool {
    f[0] == v || f[1] == v || f[2] == v
}

/// The first vertex of `t` that is not a corner of `f`: the apex of `t`
/// over its face `f`.
pub open spec fn apex_of(t: [usize; 4], f: [usize; 3]) -> Option<usize> {
    if !in3(f, t[0]) {
        Some(t[0])
    } else if !in3(f, t[1]) {
        Some(t[1])
    } else if !in3(f, t[2]) {
        Some(t[2])
    } else if !in3(f, t[3]) {
        Some(t[3])
    } else {
        None
    }
}

/// What the surface oracle `sf` answers for the sorted face `f`: the region
/// tags `(front, back)` on the two sides of a surface face, `None` for an
/// interior face.
pub open spec fn surface_tags<S: Fn(&[usize; 3]) -> Option<(u32, u32)>>(sf: S, f: [usize; 3]) -> Option<(u32, u32)> {
    choose|r: Option<(u32, u32)>| call_ensures(sf, (&f,), r)
}

/// `sf` answers every face, and always the same way.
pub open spec fn is_surface_oracle<S: Fn(&[usize; 3]) -> Option<(u32, u32)>>(sf: S) -> bool {
    &&& forall|f: [usize; 3]| #[trigger] call_requires(sf, (&f,))
    &&& forall|f: [usize; 3], r: Option<(u32, u32)>, q: Option<(u32, u32)>|
        #[trigger] call_ensures(sf, (&f,), r) && #[trigger] call_ensures(sf, (&f,), q) ==> r == q
}

/// What the side oracle `p` answers for surface face `f` and apex `a`:
/// whether `a` lies on the front side of `f` (the side its normal points to).
pub open spec fn front_side<P: Fn(&[usize; 3], usize) -> bool>(p: P, f: [usize; 3], a: usize) -> bool {
    choose|b: bool| call_ensures(p, (&f, a), b)
}

/// `p` answers every face and apex, and always the same way.
pub open spec fn is_side_oracle<P: Fn(&[usize; 3], usize) -> bool>(p: P) -> bool {
    &&& forall|f: [usize; 3], a: usize| #[trigger] call_requires(p, (&f, a))
    &&& forall|f: [usize; 3], a: usize, b: bool, c: bool|
        #[trigger] call_ensures(p, (&f, a), b) && #[trigger] call_ensures(p, (&f, a), c) ==> b == c
}

/// The tag surface face `f` gives tet `t`: the front tag when the apex of
/// `t` over `f` is on the front side, else the back tag.
pub open spec fn side_tag<S: Fn(&[usize; 3]) -> Option<(u32, u32)>, P: Fn(&[usize; 3], usize) -> bool>(
    sf: S,
    p: P,
    t: [usize; 4],
    f: [usize; 3],
) -> u32 {
    let tags = surface_tags(sf, f)->0;
    if front_side(p, f, apex_of(t, f)->0) {
        tags.0
    } else {
        tags.1
    }
}

/// `v` is the tag that one of the surface faces of tet `ti` gives it.
pub open spec fn seed_value<S: Fn(&[usize; 3]) -> Option<(u32, u32)>, P: Fn(&[usize; 3], usize) -> bool>(
    tets: Seq<[usize; 4]>,
    sf: S,
    p: P,
    ti: int,
    v: u32,
) -> bool {
    exists|i: int|
        0 <= i < 4 && (#[trigger] surface_tags(sf, fkey(tets[ti], i))) is Some && v == side_tag(
            sf,
            p,
            tets[ti],
            fkey(tets[ti], i),
        )
}

/// Tet `ti` has a surface face, and no surface face gives it the tag
/// `u32::MAX` (which marks an unlabelled tet).
pub open spec fn fully_seeded<S: Fn(&[usize; 3]) -> Option<(u32, u32)>, P: Fn(&[usize; 3], usize) -> bool>(
    tets: Seq<[usize; 4]>,
    sf: S,
    p: P,
    ti: int,
) -> bool {
    &&& exists|i: int| 0 <= i < 4 && (#[trigger] surface_tags(sf, fkey(tets[ti], i))) is Some
    &&& forall|v: u32| #[trigger] seed_value(tets, sf, p, ti, v) ==> v != u32::MAX
}

/// Tets `a` and `b` are distinct and share a face that is not a surface
/// face: the flood fill may pass between them.
pub open spec fn adjacent<S: Fn(&[usize; 3]) -> Option<(u32, u32)>>(
    tets: Seq<[usize; 4]>,
    sf: S,
    a: int,
    b: int,
) -> bool {
    &&& 0 <= a < tets.len()
    &&& 0 <= b < tets.len()
    &&& a != b
    &&& exists|i: int|
        0 <= i < 4 && surface_tags(sf, #[trigger] fkey(tets[a], i)) is None && has_face_key(
            tets[b],
            fkey(tets[a], i),
        )
}

/// The tet set `x` is closed under crossing non-surface faces.
pub open spec fn closed<S: Fn(&[usize; 3]) -> Option<(u32, u32)>>(tets: Seq<[usize; 4]>, sf: S, x: Set<int>) -> bool {
    forall|a: int, b: int| #![trigger x.contains(a), adjacent(tets, sf, a, b)]
        x.contains(a) && adjacent(tets, sf, a, b) ==> x.contains(b)
}

/// Tet `a` is reachable from tet `b` without crossing the surface: every
/// closed tet set that holds `b` holds `a`.
pub open spec fn linked<S: Fn(&[usize; 3]) -> Option<(u32, u32)>>(tets: Seq<[usize; 4]>, sf: S, a: int, b: int) -> bool {
    forall|x: Set<int>| closed(tets, sf, x) && x.contains(b) ==> #[trigger] x.contains(a)
}

/// Tet `ti` has a surface face giving it a tag other than `u32::MAX`.
pub open spec fn seed_candidate<S: Fn(&[usize; 3]) -> Option<(u32, u32)>, P: Fn(&[usize; 3], usize) -> bool>(
    tets: Seq<[usize; 4]>,
    sf: S,
    p: P,
    ti: int,
) -> bool {
    exists|v: u32| v != u32::MAX && #[trigger] seed_value(tets, sf, p, ti, v)
}

/// Tet `ti` lies in every closed tet set that holds all seed candidates:
/// the flood fill from the surface reaches it.
pub open spec fn in_every_cover<S: Fn(&[usize; 3]) -> Option<(u32, u32)>, P: Fn(&[usize; 3], usize) -> bool>(
    tets: Seq<[usize; 4]>,
    sf: S,
    p: P,
    ti: int,
) -> bool {
    forall|x: Set<int>|
        closed(tets, sf, x) && (forall|s: int| 0 <= s < tets.len() && seed_candidate(tets, sf, p, s) ==> #[trigger] x.contains(s))
            ==> #[trigger] x.contains(ti)
}

/// Tag `v` of tet `t` is a seed tag (not `u32::MAX`) of a tet that `t` is
/// linked to.
pub open spec fn labelled_from_seed<S: Fn(&[usize; 3]) -> Option<(u32, u32)>, P: Fn(&[usize; 3], usize) -> bool>(
    tets: Seq<[usize; 4]>,
    sf: S,
    p: P,
    v: u32,
    t: int,
) -> bool {
    &&& v != u32::MAX
    &&& exists|s: int| 0 <= s < tets.len() && #[trigger] seed_value(tets, sf, p, s, v) && linked(tets, sf, t, s)
}

/// `reach` is a flood of the tets of `r`: a closed set holding every fully
/// seeded tet, whose tets carry tags of seeds they are linked to, while
/// every other tet carries `0`.
pub open spec fn flood_of<S: Fn(&[usize; 3]) -> Option<(u32, u32)>, P: Fn(&[usize; 3], usize) -> bool>(
    tets: Seq<[usize; 4]>,
    sf: S,
    p: P,
    r: Seq<u32>,
    reach: Set<int>,
) -> bool {
    &&& forall|t: int| #[trigger] reach.contains(t) ==> 0 <= t < tets.len()
    &&& closed(tets, sf, reach)
    &&& forall|t: int| 0 <= t < tets.len() && fully_seeded(tets, sf, p, t) ==> #[trigger] reach.contains(t)
    &&& forall|t: int|
        0 <= t < tets.len() ==> if reach.contains(t) {
            labelled_from_seed(tets, sf, p, #[trigger] r[t], t)
        } else {
            r[t] == 0
        }
}

/// `r` is a region classification of `tets` by the surface oracle `sf` and
/// the side oracle `p`.
pub open spec fn classified<S: Fn(&[usize; 3]) -> Option<(u32, u32)>, P: Fn(&[usize; 3], usize) -> bool>(
    tets: Seq<[usize; 4]>,
    sf: S,
    p: P,
    r: Seq<u32>,
) -> bool {
    &&& r.len() == tets.len()
    &&& exists|reach: Set<int>| flood_of(tets, sf, p, r, reach)
}

fn surface_of<S: Fn(&[usize; 3]) -> Option<(u32, u32)>>(sf: &S, f: [usize; 3]) -> (r: Option<(u32, u32)>)
    requires
        is_surface_oracle(*sf),
    ensures
        r == surface_tags(*sf, f),
{
    sf(&f)
}

fn side_of<P: Fn(&[usize; 3], usize) -> bool>(p: &P, f: [usize; 3], a: usize) -> (r: bool)
    requires
        is_side_oracle(*p),
    ensures
        r == front_side(*p, f, a),
{
    p(&f, a)
}

/// Sorted key of face `i` of tet `t`.
fn face_key_at(t: [usize; 4], i: usize) -> (r: [usize; 3])
    requires
        i < 4,
    ensures
        r == fkey(t, i as int),
{
    let f = if i == 0 {
        [t[0], t[1], t[2]]
    } else if i == 1 {
        [t[0], t[1], t[3]]
    } else if i == 2 {
        [t[0], t[2], t[3]]
    } else {
        [t[1], t[2], t[3]]
    };
    sorted3(f)
}

/// The first vertex of `t` off the face `f`.
fn apex(t: [usize; 4], f: [usize; 3]) -> (r: Option<usize>)
    ensures
        r == apex_of(t, f),
{
    let mut k: usize = 0;
    while k < 4
        invariant
            k <= 4,
            forall|j: int| 0 <= j < k ==> in3(f, #[trigger] t[j]),
        decreases 4 - k,
    {
        let v = t[k];
        if !(f[0] == v || f[1] == v || f[2] == v) {
            return Some(v);
        }
        k += 1;
    }
    None
}

/// Face `k < 4` of tet `t` with key `f` comes before face `i` of tet `ti`
/// (tet-major order).
pub open spec fn face_seen(tets: Seq<[usize; 4]>, t: int, f: [usize; 3], ti: int, i: int) -> bool {
    exists|k: int| 0 <= k < 4 && (t < ti || (t == ti && k < i)) && #[trigger] fkey(tets[t], k) == f
}

/// `index` maps every face key of `tets` to its bucket in `buckets`, which
/// lists exactly the tets having that face key.
pub open spec fn face_buckets_of(tets: Seq<[usize; 4]>, index: Map<[usize; 3], usize>, buckets: Seq<Vec<usize>>) -> bool {
    &&& forall|f: [usize; 3]|
        #[trigger] index.contains_key(f) <==> exists|t: int| 0 <= t < tets.len() && has_face_key(tets[t], f)
    &&& forall|f: [usize; 3]| #[trigger] index.contains_key(f) ==> index[f] < buckets.len()
    &&& forall|f: [usize; 3], x: usize|
        index.contains_key(f) ==> (#[trigger] buckets[index[f] as int]@.contains(x) <==> (x < tets.len()
            && has_face_key(tets[x as int], f)))
}

/// Buckets the tets by face key: for every face key, the tets having it.
fn face_buckets(tets: &[[usize; 4]]) -> (r: (FxHashMap<[usize; 3], usize>, Vec<Vec<usize>>))
    ensures
        face_buckets_of(tets@, r.0@, r.1@),
{
    let n = tets.len();
    let mut index: FxHashMap<[usize; 3], usize> = fx_empty();
    let mut buckets: Vec<Vec<usize>> = Vec::new();
    let mut ti: usize = 0;
    while ti < n
        invariant
            n == tets@.len(),
            ti <= n,
            forall|f: [usize; 3]|
                #[trigger] index@.contains_key(f) <==> exists|t: int|
                    0 <= t < n && face_seen(tets@, t, f, ti as int, 0),
            forall|f: [usize; 3]| #[trigger] index@.contains_key(f) ==> index@[f] < buckets@.len(),
            forall|f: [usize; 3], g: [usize; 3]|
                #[trigger] index@.contains_key(f) && #[trigger] index@.contains_key(g) && f != g ==> index@[f]
                    != index@[g],
            forall|f: [usize; 3], x: usize|
                index@.contains_key(f) ==> (#[trigger] buckets@[index@[f] as int]@.contains(x) <==> (x < n
                    && face_seen(tets@, x as int, f, ti as int, 0))),
        decreases n - ti,
    {
        let t = tets[ti];
        let mut i: usize = 0;
        while i < 4
            invariant
                n == tets@.len(),
                ti < n,
                i <= 4,
                t == tets@[ti as int],
                forall|f: [usize; 3]|
                    #[trigger] index@.contains_key(f) <==> exists|t: int|
                        0 <= t < n && face_seen(tets@, t, f, ti as int, i as int),
                forall|f: [usize; 3]| #[trigger] index@.contains_key(f) ==> index@[f] < buckets@.len(),
                forall|f: [usize; 3], g: [usize; 3]|
                    #[trigger] index@.contains_key(f) && #[trigger] index@.contains_key(g) && f != g
                        ==> index@[f] != index@[g],
                forall|f: [usize; 3], x: usize|
                    index@.contains_key(f) ==> (#[trigger] buckets@[index@[f] as int]@.contains(x) <==> (x < n
                        && face_seen(tets@, x as int, f, ti as int, i as int))),
            decreases 4 - i,
        {
            let key = face_key_at(t, i);
            let ghost old_index = index@;
            let ghost old_buckets = buckets@;
            let ghost i1: int = i + 1;
            proof {
                assert forall|x: int, f: [usize; 3]|
                    face_seen(tets@, x, f, ti as int, i1) <==> (face_seen(tets@, x, f, ti as int, i as int) || (
                    x == ti && f == key)) by {
                    if x == ti && f == key {
                        assert(fkey(tets@[x], i as int) == f);
                    }
                    if face_seen(tets@, x, f, ti as int, i1) {
                        let k = choose|k: int|
                            0 <= k < 4 && (x < ti || (x == ti && k < i + 1)) && #[trigger] fkey(tets@[x], k) == f;
                        if !(x == ti && k == i) {
                            assert(fkey(tets@[x], k) == f);
                        }
                    }
                }
            }
            match fx_get(&index, &key) {
                Some(id) => {
                    buckets[id].push(ti);
                    proof {
                        assert forall|f: [usize; 3], x: usize| index@.contains_key(f) implies (
                        #[trigger] buckets@[index@[f] as int]@.contains(x) <==> (x < n && face_seen(
                            tets@,
                            x as int,
                            f,
                            ti as int,
                            i1,
                        ))) by {
                            if f == key {
                                assert(buckets@[id as int]@ == old_buckets[id as int]@.push(ti));
                                if buckets@[id as int]@.contains(x) && x != ti {
                                    let j = choose|j: int| 0 <= j < buckets@[id as int]@.len() && buckets@[id as int]@[j] == x;
                                    assert(old_buckets[id as int]@[j] == x);
                                }
                                if old_buckets[id as int]@.contains(x) {
                                    let j = choose|j: int| 0 <= j < old_buckets[id as int]@.len() && old_buckets[id as int]@[j] == x;
                                    assert(buckets@[id as int]@[j] == x);
                                }
                                if x == ti {
                                    assert(buckets@[id as int]@[old_buckets[id as int]@.len() as int] == x);
                                }
                            } else {
                                assert(index@[f] != id);
                                assert(buckets@[index@[f] as int] == old_buckets[index@[f] as int]);
                            }
                        }
                        assert forall|f: [usize; 3]|
                            #[trigger] index@.contains_key(f) <==> exists|t: int|
                                0 <= t < n && face_seen(tets@, t, f, ti as int, i1) by {
                            if index@.contains_key(f) {
                                let t = choose|t: int| 0 <= t < n && face_seen(tets@, t, f, ti as int, i as int);
                                assert(face_seen(tets@, t, f, ti as int, i1));
                            }
                            if f == key {
                                assert(face_seen(tets@, ti as int, f, ti as int, i1));
                            }
                        }
                    }
                },
                None => {
                    let id = buckets.len();
                    fx_insert(&mut index, key, id);
                    let mut fresh: Vec<usize> = Vec::new();
                    fresh.push(ti);
                    buckets.push(fresh);
                    proof {
                        assert(!old_index.contains_key(key));
                        assert forall|t: int| 0 <= t < n implies !face_seen(tets@, t, key, ti as int, i as int) by {
                            if face_seen(tets@, t, key, ti as int, i as int) {
                                assert(old_index.contains_key(key));
                            }
                        }
                        assert forall|f: [usize; 3], x: usize| index@.contains_key(f) implies (
                        #[trigger] buckets@[index@[f] as int]@.contains(x) <==> (x < n && face_seen(
                            tets@,
                            x as int,
                            f,
                            ti as int,
                            i1,
                        ))) by {
                            if f == key {
                                assert(buckets@[id as int]@ =~= seq![ti]);
                                if x == ti {
                                    assert(buckets@[id as int]@[0] == x);
                                }
                            } else {
                                assert(old_index.contains_key(f));
                                assert(buckets@[index@[f] as int] == old_buckets[index@[f] as int]);
                            }
                        }
                        assert forall|f: [usize; 3]|
                            #[trigger] index@.contains_key(f) <==> exists|t: int|
                                0 <= t < n && face_seen(tets@, t, f, ti as int, i1) by {
                            if index@.contains_key(f) && f != key {
                                let t = choose|t: int| 0 <= t < n && face_seen(tets@, t, f, ti as int, i as int);
                                assert(face_seen(tets@, t, f, ti as int, i1));
                            }
                            if f == key {
                                assert(face_seen(tets@, ti as int, f, ti as int, i1));
                            }
                        }
                    }
                },
            }
            i += 1;
        }
        let ghost ti1: int = ti + 1;
        proof {
            assert forall|x: int, f: [usize; 3]|
                face_seen(tets@, x, f, ti as int, 4) <==> face_seen(tets@, x, f, ti1, 0) by {
                if face_seen(tets@, x, f, ti as int, 4) {
                    let k = choose|k: int| 0 <= k < 4 && (x < ti || (x == ti && k < 4)) && #[trigger] fkey(tets@[x], k) == f;
                    assert(fkey(tets@[x], k) == f);
                }
                if face_seen(tets@, x, f, ti1, 0) {
                    let k = choose|k: int| 0 <= k < 4 && (x < ti + 1 || (x == ti + 1 && k < 0)) && #[trigger] fkey(tets@[x], k) == f;
                    assert(fkey(tets@[x], k) == f);
                }
            }
            assert forall|f: [usize; 3]|
                #[trigger] index@.contains_key(f) <==> exists|t: int| 0 <= t < n && face_seen(tets@, t, f, ti1, 0) by {
                if index@.contains_key(f) {
                    let t = choose|t: int| 0 <= t < n && face_seen(tets@, t, f, ti as int, 4);
                    assert(face_seen(tets@, t, f, ti1, 0));
                }
                if exists|t: int| 0 <= t < n && face_seen(tets@, t, f, ti1, 0) {
                    let t = choose|t: int| 0 <= t < n && face_seen(tets@, t, f, ti1, 0);
                    assert(face_seen(tets@, t, f, ti as int, 4));
                }
            }
        }
        ti += 1;
    }
    proof {
        assert forall|x: int, f: [usize; 3]| 0 <= x < n implies (face_seen(tets@, x, f, n as int, 0) <==> has_face_key(tets@[x], f)) by {
            if has_face_key(tets@[x], f) {
                let k = choose|k: int| 0 <= k < 4 && #[trigger] fkey(tets@[x], k) == f;
                assert(fkey(tets@[x], k) == f);
            }
            if face_seen(tets@, x, f, n as int, 0) {
                let k = choose|k: int| 0 <= k < 4 && (x < n || (x == n && k < 0)) && #[trigger] fkey(tets@[x], k) == f;
                assert(fkey(tets@[x], k) == f);
            }
        }
        assert forall|f: [usize; 3]|
            #[trigger] index@.contains_key(f) <==> exists|t: int| 0 <= t < n && has_face_key(tets@[t], f) by {
            if index@.contains_key(f) {
                let t = choose|t: int| 0 <= t < n && face_seen(tets@, t, f, n as int, 0);
                assert(has_face_key(tets@[t], f));
            }
            if exists|t: int| 0 <= t < n && has_face_key(tets@[t], f) {
                let t = choose|t: int| 0 <= t < n && has_face_key(tets@[t], f);
                assert(face_seen(tets@, t, f, n as int, 0));
            }
        }
        assert forall|f: [usize; 3], x: usize| index@.contains_key(f) implies (#[trigger] buckets@[index@[f] as int]@.contains(x)
            <==> (x < n && has_face_key(tets@[x as int], f))) by {
            if x < n {
                assert(face_seen(tets@, x as int, f, n as int, 0) <==> has_face_key(tets@[x as int], f));
            }
        }
    }
    (index, buckets)
}

/// Tet `t` has a surface face.
pub open spec fn has_surface_face<S: Fn(&[usize; 3]) -> Option<(u32, u32)>>(tets: Seq<[usize; 4]>, sf: S, t: int) -> bool {
    exists|i: int| 0 <= i < 4 && (#[trigger] surface_tags(sf, fkey(tets[t], i))) is Some
}

/// Every tet has a vertex off each of its surface faces (no surface face
/// spans a flat tet).
pub open spec fn apexes_exist<S: Fn(&[usize; 3]) -> Option<(u32, u32)>>(tets: Seq<[usize; 4]>, sf: S) -> bool {
    forall|t: int, i: int|
        0 <= t < tets.len() && 0 <= i < 4 && (#[trigger] surface_tags(sf, fkey(tets[t], i))) is Some ==> apex_of(
            tets[t],
            fkey(tets[t], i),
        ) is Some
}

/// Seeds the tets on the surface: every tet with a surface face gets the
/// tag on its side of one of them; the others keep `u32::MAX`.
fn seed_regions<S: Fn(&[usize; 3]) -> Option<(u32, u32)>, P: Fn(&[usize; 3], usize) -> bool>(
    tets: &[[usize; 4]],
    index: &FxHashMap<[usize; 3], usize>,
    buckets: &Vec<Vec<usize>>,
    surface_face: &S,
    on_front: &P,
) -> (region: Vec<u32>)
    requires
        face_buckets_of(tets@, index@, buckets@),
        is_surface_oracle(*surface_face),
        is_side_oracle(*on_front),
        apexes_exist(tets@, *surface_face),
    ensures
        region@.len() == tets@.len(),
        forall|t: int|
            0 <= t < tets@.len() ==> #[trigger] region@[t] == u32::MAX || seed_value(
                tets@,
                *surface_face,
                *on_front,
                t,
                region@[t],
            ),
        forall|t: int|
            0 <= t < tets@.len() && has_surface_face(tets@, *surface_face, t) ==> seed_value(
                tets@,
                *surface_face,
                *on_front,
                t,
                #[trigger] region@[t],
            ),
{
    let ghost sf = *surface_face;
    let ghost p = *on_front;
    let n = tets.len();
    let mut region: Vec<u32> = Vec::new();
    while region.len() < n
        invariant
            region@.len() <= n,
            forall|t: int| 0 <= t < region@.len() ==> #[trigger] region@[t] == u32::MAX,
        decreases n - region@.len(),
    {
        region.push(u32::MAX);
    }
    let keys = fx_keys(index);
    let mut kk: usize = 0;
    while kk < keys.len()
        invariant
            n == tets@.len(),
            face_buckets_of(tets@, index@, buckets@),
            sf == *surface_face,
            p == *on_front,
            is_surface_oracle(sf),
            is_side_oracle(p),
            apexes_exist(tets@, sf),
            keys@.to_set() == index@.dom(),
            kk <= keys@.len(),
            region@.len() == n,
            forall|t: int| 0 <= t < n ==> #[trigger] region@[t] == u32::MAX || seed_value(tets@, sf, p, t, region@[t]),
            forall|t: int, k: int|
                0 <= t < n && 0 <= k < kk && surface_tags(sf, #[trigger] keys@[k]) is Some && has_face_key(
                    tets@[t],
                    keys@[k],
                ) ==> seed_value(tets@, sf, p, t, #[trigger] region@[t]),
        decreases keys@.len() - kk,
    {
        let f = keys[kk];
        proof {
            assert(keys@.to_set().contains(f));
        }
        match surface_of(surface_face, f) {
            Some((front, back)) => {
                let id = match fx_get(index, &f) {
                    Some(id) => id,
                    None => 0,
                };
                let owners = &buckets[id];
                let mut j: usize = 0;
                while j < owners.len()
                    invariant
                        n == tets@.len(),
                        face_buckets_of(tets@, index@, buckets@),
                        sf == *surface_face,
                        p == *on_front,
                        is_surface_oracle(sf),
                        is_side_oracle(p),
                        apexes_exist(tets@, sf),
                        index@.contains_key(f),
                        *owners == buckets@[index@[f] as int],
                        surface_tags(sf, f) == Some((front, back)),
                        j <= owners@.len(),
                        region@.len() == n,
                        forall|t: int| 0 <= t < n ==> #[trigger] region@[t] == u32::MAX || seed_value(tets@, sf, p, t, region@[t]),
                        forall|t: int, k: int|
                            0 <= t < n && 0 <= k < kk && surface_tags(sf, #[trigger] keys@[k]) is Some && has_face_key(
                                tets@[t],
                                keys@[k],
                            ) ==> seed_value(tets@, sf, p, t, #[trigger] region@[t]),
                        forall|m: int|
                            0 <= m < j ==> region@[#[trigger] owners@[m] as int] == side_tag(sf, p, tets@[owners@[m] as int], f),
                    decreases owners@.len() - j,
                {
                    let ti = owners[j];
                    let ghost before = region@;
                    proof {
                        assert(owners@.contains(ti));
                        assert(ti < n && has_face_key(tets@[ti as int], f));
                        let i = choose|i: int| 0 <= i < 4 && #[trigger] fkey(tets@[ti as int], i) == f;
                        assert(surface_tags(sf, fkey(tets@[ti as int], i)) is Some);
                    }
                    let a = apex(tets[ti], f).unwrap();
                    let up = side_of(on_front, f, a);
                    let v = if up {
                        front
                    } else {
                        back
                    };
                    region.set(ti, v);
                    proof {
                        let i = choose|i: int| 0 <= i < 4 && #[trigger] fkey(tets@[ti as int], i) == f;
                        assert(v == side_tag(sf, p, tets@[ti as int], f));
                        assert(seed_value(tets@, sf, p, ti as int, v)) by {
                            assert(surface_tags(sf, fkey(tets@[ti as int], i)) is Some);
                        }
                        assert forall|m: int| 0 <= m < j + 1 implies region@[#[trigger] owners@[m] as int] == side_tag(
                            sf,
                            p,
                            tets@[owners@[m] as int],
                            f,
                        ) by {
                            assert(region@ == before.update(ti as int, v));
                            assert(owners@.contains(owners@[m]));
                            assert(buckets@[index@[f] as int]@.contains(owners@[m]));
                            if owners@[m] != ti {
                                assert(region@[owners@[m] as int] == before[owners@[m] as int]);
                            }
                        }
                    }
                    j += 1;
                }
                proof {
                    assert forall|t: int, k: int|
                        0 <= t < n && 0 <= k < kk + 1 && surface_tags(sf, #[trigger] keys@[k]) is Some && has_face_key(
                            tets@[t],
                            keys@[k],
                        ) implies seed_value(tets@, sf, p, t, #[trigger] region@[t]) by {
                        if k == kk {
                            assert(buckets@[index@[f] as int]@.contains(t as usize));
                            let m = choose|m: int| 0 <= m < owners@.len() && owners@[m] == t as usize;
                            assert(region@[owners@[m] as int] == side_tag(sf, p, tets@[owners@[m] as int], f));
                            let i = choose|i: int| 0 <= i < 4 && #[trigger] fkey(tets@[t], i) == f;
                            assert(surface_tags(sf, fkey(tets@[t], i)) is Some);
                        }
                    }
                }
            },
            None => {},
        }
        kk += 1;
    }
    proof {
        assert forall|t: int| 0 <= t < n && has_surface_face(tets@, sf, t) implies seed_value(
            tets@,
            sf,
            p,
            t,
            #[trigger] region@[t],
        ) by {
            let i = choose|i: int| 0 <= i < 4 && (#[trigger] surface_tags(sf, fkey(tets@[t], i))) is Some;
            let f = fkey(tets@[t], i);
            assert(has_face_key(tets@[t], f));
            assert(index@.contains_key(f));
            assert(keys@.to_set().contains(f));
            let k = choose|k: int| 0 <= k < keys@.len() && keys@[k] == f;
            assert(surface_tags(sf, keys@[k]) is Some);
        }
    }
    region
}

/// Every tet adjacent to tet `x` is labelled.
pub open spec fn done_at<S: Fn(&[usize; 3]) -> Option<(u32, u32)>>(tets: Seq<[usize; 4]>, sf: S, r: Seq<u32>, x: int) -> bool {
    forall|b: int| #[trigger] adjacent(tets, sf, x, b) ==> r[b] != u32::MAX
}

/// Face `i` of tet `ti` is a surface face, or every other tet on it is
/// labelled.
pub open spec fn face_done<S: Fn(&[usize; 3]) -> Option<(u32, u32)>>(
    tets: Seq<[usize; 4]>,
    sf: S,
    r: Seq<u32>,
    ti: int,
    i: int,
) -> bool {
    ||| surface_tags(sf, fkey(tets[ti], i)) is Some
    ||| forall|b: int|
        0 <= b < tets.len() && b != ti && #[trigger] has_face_key(tets[b], fkey(tets[ti], i)) ==> r[b] != u32::MAX
}

/// A tet is linked to itself.
proof fn lemma_linked_self<S: Fn(&[usize; 3]) -> Option<(u32, u32)>>(tets: Seq<[usize; 4]>, sf: S, t: int)
    ensures
        linked(tets, sf, t, t),
{
}

/// Crossing one non-surface face keeps a tet linked to the same seed.
proof fn lemma_linked_step<S: Fn(&[usize; 3]) -> Option<(u32, u32)>>(tets: Seq<[usize; 4]>, sf: S, a: int, b: int, s: int)
    requires
        linked(tets, sf, a, s),
        adjacent(tets, sf, a, b),
    ensures
        linked(tets, sf, b, s),
{
    assert forall|x: Set<int>| closed(tets, sf, x) && x.contains(s) implies #[trigger] x.contains(b) by {
        assert(x.contains(a));
    }
}

/// Floods the labels of the stacked tets across non-surface faces until
/// every labelled tet has all its neighbours across such faces labelled.
#[verifier::rlimit(60)]
fn flood<S: Fn(&[usize; 3]) -> Option<(u32, u32)>, P: Fn(&[usize; 3], usize) -> bool>(
    tets: &[[usize; 4]],
    index: &FxHashMap<[usize; 3], usize>,
    buckets: &Vec<Vec<usize>>,
    surface_face: &S,
    on_front: &P,
    region: &mut Vec<u32>,
    stack: Vec<usize>,
)
    requires
        face_buckets_of(tets@, index@, buckets@),
        is_surface_oracle(*surface_face),
        old(region)@.len() == tets@.len(),
        forall|k: int|
            0 <= k < stack@.len() ==> #[trigger] stack@[k] < tets@.len() && old(region)@[stack@[k] as int] != u32::MAX,
        stack@.no_duplicates(),
        forall|x: int|
            0 <= x < tets@.len() && #[trigger] old(region)@[x] != u32::MAX && !stack@.contains(x as usize) ==> done_at(
                tets@,
                *surface_face,
                old(region)@,
                x,
            ),
        forall|x: int|
            0 <= x < tets@.len() && #[trigger] old(region)@[x] != u32::MAX ==> labelled_from_seed(
                tets@,
                *surface_face,
                *on_front,
                old(region)@[x],
                x,
            ),
    ensures
        final(region)@.len() == tets@.len(),
        forall|x: int|
            0 <= x < tets@.len() && #[trigger] final(region)@[x] != u32::MAX ==> done_at(tets@, *surface_face, final(region)@, x),
        forall|x: int|
            0 <= x < tets@.len() && #[trigger] final(region)@[x] != u32::MAX ==> labelled_from_seed(
                tets@,
                *surface_face,
                *on_front,
                final(region)@[x],
                x,
            ),
        forall|x: int| 0 <= x < tets@.len() && #[trigger] old(region)@[x] != u32::MAX ==> final(region)@[x] != u32::MAX,
{
    let ghost sf = *surface_face;
    let ghost p = *on_front;
    let ghost r0 = region@;
    let n = tets.len();
    let mut stack = stack;
    let ghost mut unas: Set<int> = Set::new(|x: int| 0 <= x < n && region@[x] == u32::MAX);
    proof {
        vstd::set_lib::lemma_int_range(0, n as int);
        vstd::set_lib::lemma_len_subset(unas, vstd::set_lib::set_int_range(0, n as int));
    }
    while stack.len() > 0
        invariant
            n == tets@.len(),
            face_buckets_of(tets@, index@, buckets@),
            sf == *surface_face,
            p == *on_front,
            is_surface_oracle(sf),
            region@.len() == n,
            forall|k: int| 0 <= k < stack@.len() ==> #[trigger] stack@[k] < n && region@[stack@[k] as int] != u32::MAX,
            stack@.no_duplicates(),
            unas.finite(),
            forall|x: int| #[trigger] unas.contains(x) <==> (0 <= x < n && region@[x] == u32::MAX),
            forall|x: int|
                0 <= x < n && #[trigger] region@[x] != u32::MAX && !stack@.contains(x as usize) ==> done_at(tets@, sf, region@, x),
            forall|x: int|
                0 <= x < n && #[trigger] region@[x] != u32::MAX ==> labelled_from_seed(tets@, sf, p, region@[x], x),
            forall|x: int| 0 <= x < n && #[trigger] r0[x] != u32::MAX ==> region@[x] != u32::MAX,
        decreases unas.len(), stack@.len(),
    {
        let ghost stack0 = stack@;
        let ti = match stack.pop() {
            Some(x) => x,
            None => 0,
        };
        let ghost unas0 = unas;
        let ghost len0 = stack@.len();
        let ghost mut pushes: int = 0;
        proof {
            assert(stack@ == stack0.drop_last());
            assert(ti == stack0[stack0.len() - 1]);
            assert(!stack@.contains(ti)) by {
                if stack@.contains(ti) {
                    let k = choose|k: int| 0 <= k < stack@.len() && stack@[k] == ti;
                    assert(stack0[k] == stack0[stack0.len() - 1]);
                }
            }
            assert(stack0[stack0.len() - 1] < n);
            assert forall|x: usize| #[trigger] stack0.contains(x) && x != ti implies stack@.contains(x) by {
                let k = choose|k: int| 0 <= k < stack0.len() && stack0[k] == x;
                assert(stack@[k] == x);
            }
        }
        let t = tets[ti];
        let mut i: usize = 0;
        while i < 4
            invariant
                n == tets@.len(),
                face_buckets_of(tets@, index@, buckets@),
                sf == *surface_face,
                p == *on_front,
                is_surface_oracle(sf),
                ti < n,
                t == tets@[ti as int],
                i <= 4,
                region@.len() == n,
                region@[ti as int] != u32::MAX,
                !stack@.contains(ti),
                forall|k: int| 0 <= k < stack@.len() ==> #[trigger] stack@[k] < n && region@[stack@[k] as int] != u32::MAX,
                stack@.no_duplicates(),
                unas.finite(),
                forall|x: int| #[trigger] unas.contains(x) <==> (0 <= x < n && region@[x] == u32::MAX),
                forall|x: int|
                    0 <= x < n && x != ti && #[trigger] region@[x] != u32::MAX && !stack@.contains(x as usize) ==> done_at(
                        tets@,
                        sf,
                        region@,
                        x,
                    ),
                forall|x: int|
                    0 <= x < n && #[trigger] region@[x] != u32::MAX ==> labelled_from_seed(tets@, sf, p, region@[x], x),
                forall|x: int| 0 <= x < n && #[trigger] r0[x] != u32::MAX ==> region@[x] != u32::MAX,
                forall|k: int| 0 <= k < i ==> face_done(tets@, sf, region@, ti as int, k),
                pushes >= 0,
                unas.len() + pushes == unas0.len(),
                stack@.len() == len0 + pushes,
            decreases 4 - i,
        {
            let key = face_key_at(t, i);
            if surface_of(surface_face, key).is_none() {
                proof {
                    assert(has_face_key(tets@[ti as int], key));
                    assert(index@.contains_key(key));
                }
                let id = match fx_get(index, &key) {
                    Some(id) => id,
                    None => 0,
                };
                let owners = &buckets[id];
                let mut j: usize = 0;
                while j < owners.len()
                    invariant
                        n == tets@.len(),
                        face_buckets_of(tets@, index@, buckets@),
                        sf == *surface_face,
                        p == *on_front,
                        is_surface_oracle(sf),
                        ti < n,
                        t == tets@[ti as int],
                        i < 4,
                        key == fkey(tets@[ti as int], i as int),
                        surface_tags(sf, key) is None,
                        index@.contains_key(key),
                        *owners == buckets@[index@[key] as int],
                        j <= owners@.len(),
                        region@.len() == n,
                        region@[ti as int] != u32::MAX,
                        !stack@.contains(ti),
                        forall|k: int|
                            0 <= k < stack@.len() ==> #[trigger] stack@[k] < n && region@[stack@[k] as int] != u32::MAX,
                        stack@.no_duplicates(),
                        unas.finite(),
                        forall|x: int| #[trigger] unas.contains(x) <==> (0 <= x < n && region@[x] == u32::MAX),
                        forall|x: int|
                            0 <= x < n && x != ti && #[trigger] region@[x] != u32::MAX && !stack@.contains(x as usize)
                                ==> done_at(tets@, sf, region@, x),
                        forall|x: int|
                            0 <= x < n && #[trigger] region@[x] != u32::MAX ==> labelled_from_seed(tets@, sf, p, region@[x], x),
                        forall|x: int| 0 <= x < n && #[trigger] r0[x] != u32::MAX ==> region@[x] != u32::MAX,
                        forall|k: int| 0 <= k < i ==> face_done(tets@, sf, region@, ti as int, k),
                        forall|m: int|
                            0 <= m < j ==> #[trigger] owners@[m] == ti || region@[owners@[m] as int] != u32::MAX,
                        pushes >= 0,
                        unas.len() + pushes == unas0.len(),
                        stack@.len() == len0 + pushes,
                    decreases owners@.len() - j,
                {
                    let nb = owners[j];
                    proof {
                        assert(owners@.contains(nb));
                        assert(buckets@[index@[key] as int]@.contains(nb));
                    }
                    let ghost reg_j = region@;
                    if nb != ti && region[nb] == u32::MAX {
                        let v = region[ti];
                        let ghost before = region@;
                        let ghost stack_before = stack@;
                        proof {
                            assert(adjacent(tets@, sf, ti as int, nb as int)) by {
                                assert(surface_tags(sf, fkey(tets@[ti as int], i as int)) is None);
                            }
                            assert(labelled_from_seed(tets@, sf, p, v, ti as int));
                            let s = choose|s: int|
                                0 <= s < n && #[trigger] seed_value(tets@, sf, p, s, v) && linked(tets@, sf, ti as int, s);
                            lemma_linked_step(tets@, sf, ti as int, nb as int, s);
                            assert(labelled_from_seed(tets@, sf, p, v, nb as int));
                            assert(unas.contains(nb as int));
                        }
                        region.set(nb, v);
                        stack.push(nb);
                        proof {
                            unas = unas.remove(nb as int);
                            pushes = pushes + 1;
                            assert(region@ == before.update(nb as int, v));
                            assert forall|x: int|
                                0 <= x < n && #[trigger] region@[x] != u32::MAX implies labelled_from_seed(
                                    tets@,
                                    sf,
                                    p,
                                    region@[x],
                                    x,
                                ) by {
                                if x != nb && region@[x] != u32::MAX {
                                    assert(before[x] == region@[x]);
                                }
                            }
                            assert forall|x: int|
                                0 <= x < n && x != ti && #[trigger] region@[x] != u32::MAX && !stack@.contains(x as usize)
                                    implies done_at(tets@, sf, region@, x) by {
                                assert(stack@[stack@.len() - 1] == nb);
                                assert(x != nb);
                                assert(!stack_before.contains(x as usize)) by {
                                    if stack_before.contains(x as usize) {
                                        let k = choose|k: int| 0 <= k < stack_before.len() && stack_before[k] == x as usize;
                                        assert(stack@[k] == x as usize);
                                    }
                                }
                                assert(before[x] != u32::MAX);
                                assert forall|b: int| #[trigger] adjacent(tets@, sf, x, b) implies region@[b] != u32::MAX by {
                                    assert(before[b] != u32::MAX);
                                }
                            }
                            assert forall|k: int| 0 <= k < i implies face_done(tets@, sf, region@, ti as int, k) by {
                                assert(face_done(tets@, sf, before, ti as int, k));
                            }
                            assert forall|k: int|
                                0 <= k < stack@.len() implies #[trigger] stack@[k] < n && region@[stack@[k] as int] != u32::MAX by {
                                if k < stack_before.len() {
                                    assert(stack@[k] == stack_before[k]);
                                }
                            }
                            assert(stack@.no_duplicates()) by {
                                assert forall|a: int, b: int| 0 <= a < b < stack@.len() implies stack@[a] != stack@[b] by {
                                    if b == stack@.len() - 1 {
                                        assert(region@[stack@[a] as int] != u32::MAX);
                                        assert(before[stack_before[a] as int] != u32::MAX);
                                    }
                                }
                            }
                        }
                    }
                    proof {
                        assert forall|m: int|
                            0 <= m < j + 1 implies #[trigger] owners@[m] == ti || region@[owners@[m] as int] != u32::MAX by {
                            assert(owners@.contains(owners@[m]));
                            assert(buckets@[index@[key] as int]@.contains(owners@[m]));
                            if m < j && owners@[m] != ti {
                                assert(reg_j[owners@[m] as int] != u32::MAX);
                            }
                        }
                    }
                    j += 1;
                }
                proof {
                    assert forall|b: int|
                        0 <= b < n && b != ti && #[trigger] has_face_key(tets@[b], fkey(tets@[ti as int], i as int))
                            implies region@[b] != u32::MAX by {
                        assert(buckets@[index@[key] as int]@.contains(b as usize));
                        let m = choose|m: int| 0 <= m < owners@.len() && owners@[m] == b as usize;
                        assert(owners@[m] == ti || region@[owners@[m] as int] != u32::MAX);
                    }
                    assert(face_done(tets@, sf, region@, ti as int, i as int));
                }
            }
            i += 1;
        }
        proof {
            assert(done_at(tets@, sf, region@, ti as int)) by {
                assert forall|b: int| #[trigger] adjacent(tets@, sf, ti as int, b) implies region@[b] != u32::MAX by {
                    let k = choose|k: int|
                        0 <= k < 4 && surface_tags(sf, #[trigger] fkey(tets@[ti as int], k)) is None && has_face_key(
                            tets@[b],
                            fkey(tets@[ti as int], k),
                        );
                    assert(face_done(tets@, sf, region@, ti as int, k));
                }
            }
            if pushes > 0 {
                assert(unas.len() < unas0.len());
            }
        }
    }
}

/// Assigns each tet a region tag by flood fill, blocked by the surface.
/// The oracle `surface_face(&sorted_tri)` answers `Some((front, back))` for
/// a tet face on the surface, with the region tags on the side its outward
/// normal points to (front) and the opposite side (back), and `None` for an
/// interior face; `on_front(&face, apex)` tells whether a tet's apex over a
/// surface face lies on its front side. Each tet on a surface face is
/// seeded with the tag of its side, then the tags flood across non-surface
/// faces. A tet the flood never reaches is background, `0`.
pub fn classify_regions<S: Fn(&[usize; 3]) -> Option<(u32, u32)>, P: Fn(&[usize; 3], usize) -> bool>(
    tets: &[[usize; 4]],
    surface_face: &S,
    on_front: &P,
) -> (region: Vec<u32>)
    requires
        is_surface_oracle(*surface_face),
        is_side_oracle(*on_front),
        apexes_exist(tets@, *surface_face),
    ensures
        classified(tets@, *surface_face, *on_front, region@),
{
    let ghost sf = *surface_face;
    let ghost p = *on_front;
    let n = tets.len();
    let (index, buckets) = face_buckets(tets);
    let mut region = seed_regions(tets, &index, &buckets, surface_face, on_front);
    let ghost seeded = region@;
    let mut stack: Vec<usize> = Vec::new();
    let mut t: usize = 0;
    while t < n
        invariant
            n == tets@.len(),
            region@ == seeded,
            seeded.len() == n,
            t <= n,
            forall|k: int| 0 <= k < stack@.len() ==> #[trigger] stack@[k] < t && seeded[stack@[k] as int] != u32::MAX,
            forall|a: int, b: int| 0 <= a < b < stack@.len() ==> stack@[a] < stack@[b],
            forall|x: int| 0 <= x < t && #[trigger] seeded[x] != u32::MAX ==> stack@.contains(x as usize),
        decreases n - t,
    {
        if region[t] != u32::MAX {
            let ghost before = stack@;
            stack.push(t);
            proof {
                assert forall|x: int| 0 <= x < t + 1 && #[trigger] seeded[x] != u32::MAX implies stack@.contains(
                    x as usize,
                ) by {
                    if x < t {
                        let k = choose|k: int| 0 <= k < before.len() && before[k] == x as usize;
                        assert(stack@[k] == x as usize);
                    } else {
                        assert(stack@[before.len() as int] == x as usize);
                    }
                }
            }
        }
        t += 1;
    }
    proof {
        assert forall|x: int|
            0 <= x < n && #[trigger] seeded[x] != u32::MAX implies labelled_from_seed(tets@, sf, p, seeded[x], x) by {
            lemma_linked_self(tets@, sf, x);
            assert(seed_value(tets@, sf, p, x, seeded[x]));
        }
        assert(stack@.no_duplicates()) by {
            assert forall|a: int, b: int| 0 <= a < b < stack@.len() implies stack@[a] != stack@[b] by {
                assert(stack@[a] < stack@[b]);
            }
        }
        assert forall|k: int| 0 <= k < stack@.len() implies #[trigger] stack@[k] < tets@.len() && seeded[stack@[k] as int]
            != u32::MAX by {}
    }
    flood(tets, &index, &buckets, surface_face, on_front, &mut region, stack);
    let ghost flooded = region@;
    let ghost reach: Set<int> = Set::new(|x: int| 0 <= x < n && flooded[x] != u32::MAX);
    let mut k: usize = 0;
    while k < n
        invariant
            region@.len() == n,
            flooded.len() == n,
            k <= n,
            forall|x: int|
                0 <= x < n ==> #[trigger] region@[x] == if x < k && flooded[x] == u32::MAX {
                    0
                } else {
                    flooded[x]
                },
        decreases n - k,
    {
        if region[k] == u32::MAX {
            region.set(k, 0);
        }
        k += 1;
    }
    proof {
        assert forall|a: int, b: int| #![trigger reach.contains(a), adjacent(tets@, sf, a, b)]
            reach.contains(a) && adjacent(tets@, sf, a, b) implies reach.contains(b) by {
            assert(done_at(tets@, sf, flooded, a));
        }
        assert forall|x: int| 0 <= x < n && fully_seeded(tets@, sf, p, x) implies #[trigger] reach.contains(x) by {
            let i = choose|i: int| 0 <= i < 4 && (#[trigger] surface_tags(sf, fkey(tets@[x], i))) is Some;
            assert(has_surface_face(tets@, sf, x));
            assert(seed_value(tets@, sf, p, x, seeded[x]));
            assert(seeded[x] != u32::MAX);
        }
        assert forall|x: int| 0 <= x < n implies if reach.contains(x) {
            labelled_from_seed(tets@, sf, p, #[trigger] region@[x], x)
        } else {
            region@[x] == 0
        } by {
            if reach.contains(x) {
                assert(region@[x] == flooded[x]);
            }
        }
        assert(flood_of(tets@, sf, p, region@, reach));
    }
    region
}

/// Labels follow the surface exactly: when a labelling `label` of the tets
/// agrees with the tag every surface face gives each of its tets (never
/// `u32::MAX`) and is equal across every non-surface face, a classification
/// gives each tet reachable from the surface its label and every other tet
/// the background `0`. The flood fill never leaks through the surface.
pub proof fn lemma_classification_follows_labels<
    S: Fn(&[usize; 3]) -> Option<(u32, u32)>,
    P: Fn(&[usize; 3], usize) -> bool,
>(tets: Seq<[usize; 4]>, sf: S, p: P, r: Seq<u32>, label: spec_fn(int) -> u32)
    requires
        classified(tets, sf, p, r),
        forall|t: int, v: u32| 0 <= t < tets.len() && #[trigger] seed_value(tets, sf, p, t, v) ==> v == label(t) && v != u32::MAX,
        forall|a: int, b: int| #[trigger] adjacent(tets, sf, a, b) ==> label(a) == label(b),
    ensures
        forall|t: int|
            0 <= t < tets.len() ==> #[trigger] r[t] == if in_every_cover(tets, sf, p, t) {
                label(t)
            } else {
                0
            },
{
    let reach = choose|reach: Set<int>| flood_of(tets, sf, p, r, reach);
    assert forall|t: int| 0 <= t < tets.len() implies #[trigger] r[t] == if in_every_cover(tets, sf, p, t) {
        label(t)
    } else {
        0
    } by {
        if in_every_cover(tets, sf, p, t) {
            assert forall|s: int| 0 <= s < tets.len() && seed_candidate(tets, sf, p, s) implies #[trigger] reach.contains(s) by {
                let v = choose|v: u32| v != u32::MAX && #[trigger] seed_value(tets, sf, p, s, v);
                let i = choose|i: int|
                    0 <= i < 4 && (#[trigger] surface_tags(sf, fkey(tets[s], i))) is Some && v == side_tag(
                        sf,
                        p,
                        tets[s],
                        fkey(tets[s], i),
                    );
                assert(fully_seeded(tets, sf, p, s));
            }
            assert(reach.contains(t));
            assert(labelled_from_seed(tets, sf, p, r[t], t));
            let s = choose|s: int| 0 <= s < tets.len() && #[trigger] seed_value(tets, sf, p, s, r[t]) && linked(tets, sf, t, s);
            let same = Set::new(|x: int| 0 <= x < tets.len() && label(x) == label(s));
            assert(closed(tets, sf, same));
            assert(same.contains(s));
            assert(same.contains(t));
        } else {
            if reach.contains(t) {
                assert(labelled_from_seed(tets, sf, p, r[t], t));
                let s = choose|s: int| 0 <= s < tets.len() && #[trigger] seed_value(tets, sf, p, s, r[t]) && linked(tets, sf, t, s);
                assert(seed_candidate(tets, sf, p, s));
                assert forall|x: Set<int>|
                    closed(tets, sf, x) && (forall|q: int| 0 <= q < tets.len() && seed_candidate(tets, sf, p, q) ==> #[trigger] x.contains(q))
                        implies #[trigger] x.contains(t) by {
                    assert(x.contains(s));
                }
                assert(false);
            }
        }
    }
}

/// The last position before `k` at which `s` holds `b`.
pub open spec fn last_index_of(s: Seq<usize>, b: usize, k: int) -> Option<int>
    decreases k,
{
    if k <= 0 {
        None
    } else if s[k - 1] == b {
        Some(k - 1)
    } else {
        last_index_of(s, b, k - 1)
    }
}

proof fn lemma_last_index_bounds(s: Seq<usize>, b: usize, k: int)
    requires
        0 <= k <= s.len(),
    ensures
        last_index_of(s, b, k) matches Some(a) ==> 0 <= a < k && s[a] == b,
    decreases k,
{
    if k > 0 {
        lemma_last_index_bounds(s, b, k - 1);
    }
}

/// Inverse of a vertex -> builder-slot map: for each builder slot below
/// `builder_len`, the last vertex stored there, or `usize::MAX` for a slot
/// no vertex owns (such as a super-tet corner or a merged duplicate).
pub fn invert(bidx: &[usize], builder_len: usize) -> (b2a: Vec<usize>)
    ensures
        b2a@.len() == builder_len,
        forall|b: int|
            0 <= b < builder_len ==> #[trigger] b2a@[b] == match last_index_of(bidx@, b as usize, bidx@.len() as int) {
                Some(a) => a as usize,
                None => usize::MAX,
            },
{
    let mut b2a: Vec<usize> = Vec::new();
    while b2a.len() < builder_len
        invariant
            b2a@.len() <= builder_len,
            forall|b: int| 0 <= b < b2a@.len() ==> #[trigger] b2a@[b] == usize::MAX,
        decreases builder_len - b2a@.len(),
    {
        b2a.push(usize::MAX);
    }
    let mut a: usize = 0;
    while a < bidx.len()
        invariant
            a <= bidx@.len(),
            b2a@.len() == builder_len,
            forall|b: int|
                0 <= b < builder_len ==> #[trigger] b2a@[b] == match last_index_of(bidx@, b as usize, a as int) {
                    Some(x) => x as usize,
                    None => usize::MAX,
                },
        decreases bidx@.len() - a,
    {
        let v = bidx[a];
        if v < builder_len {
            b2a.set(v, a);
        }
        proof {
            assert forall|b: int| 0 <= b < builder_len implies #[trigger] b2a@[b] == match last_index_of(
                bidx@,
                b as usize,
                a + 1,
            ) {
                Some(x) => x as usize,
                None => usize::MAX,
            } by {
                lemma_last_index_bounds(bidx@, b as usize, a as int);
            }
        }
        a += 1;
    }
    b2a
}

} // verus!
