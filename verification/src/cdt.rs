//! Constrained Delaunay recovery: the facet descriptors, and the gift wrap
//! that refills a cavity split by a facet plane, advancing a front of
//! oriented triangles that no new tet may cross.
use crate::delaunay::{slab_neighbor_at, slab_tet_at, TetSlab};
use crate::fxmap::{fx_empty, fx_get, fx_insert, fx_keys, fx_remove, fx_set_contains, fx_set_empty, fx_set_insert};
use crate::recover::{
    bounds_cavity, front_after, front_fold, lemma_consume_is_reversal, lemma_fold_push, front_keyed, front_xor, lemma_fold_refusal_sticks, insphere_of, insphere_sign, is_cavity_vertex, is_insphere_oracle,
    is_orient_oracle, lemma_front_stays_keyed, orient_of, orient_sign, tet_crosses_tri, tet_crosses_tri_by, Sign,
};
use crate::topology::{face_key, face_slots, oriented_face, oriented_face_of, reversal, sorted3};
use rustc_hash::{FxHashMap, FxHashSet};
use vstd::prelude::*;

verus! {

broadcast use vstd::array::group_array_axioms;

/// One PLC facet for face recovery: its three corner vertices and the
/// indices of its three boundary segments in the segment chains.
#[derive(Clone, Copy, Debug)]
pub struct FacetRef {
    /// Corner vertex indices (builder indices of explicit PLC points).
    pub corners: [usize; 3],
    /// Segment indices of the facet's edges, in any order.
    pub edges: [usize; 3],
}

/// The sign the planar orientation oracle `o2` gives for `(a, b, c)`
/// projected along axis `ax` (`0`, `1`, `2` for x, y, z).
pub open spec fn orient2_sign<H: Fn(usize, usize, usize, usize) -> Sign>(
    o2: H,
    a: usize,
    b: usize,
    c: usize,
    ax: usize,
) -> Sign {
    choose|s: Sign| call_ensures(o2, (a, b, c, ax), s)
}

/// `o2` answers every vertex triple and axis, always with the same sign.
pub open spec fn is_orient2_oracle<H: Fn(usize, usize, usize, usize) -> Sign>(o2: H) -> bool {
    &&& forall|a: usize, b: usize, c: usize, ax: usize| #[trigger] call_requires(o2, (a, b, c, ax))
    &&& forall|a: usize, b: usize, c: usize, ax: usize, s: Sign, t: Sign|
        #[trigger] call_ensures(o2, (a, b, c, ax), s) && #[trigger] call_ensures(o2, (a, b, c, ax), t) ==> s == t
}

fn orient2_of<H: Fn(usize, usize, usize, usize) -> Sign>(o2: &H, a: usize, b: usize, c: usize, ax: usize) -> (s: Sign)
    requires
        is_orient2_oracle(*o2),
    ensures
        s == orient2_sign(*o2, a, b, c, ax),
{
    o2(a, b, c, ax)
}

/// The first axis along which triangle `g` projects to a non-degenerate
/// triangle.
pub open spec fn projection_axis<H: Fn(usize, usize, usize, usize) -> Sign>(o2: H, g: [usize; 3]) -> Option<usize> {
    if orient2_sign(o2, g[0], g[1], g[2], 0) != Sign::Zero {
        Some(0)
    } else if orient2_sign(o2, g[0], g[1], g[2], 1) != Sign::Zero {
        Some(1)
    } else if orient2_sign(o2, g[0], g[1], g[2], 2) != Sign::Zero {
        Some(2)
    } else {
        None
    }
}

/// Corner order of `tri` that runs counter-clockwise in the projection.
pub open spec fn ccw_order<H: Fn(usize, usize, usize, usize) -> Sign>(o2: H, tri: [usize; 3], ax: usize) -> [int; 3] {
    if orient2_sign(o2, tri[0], tri[1], tri[2], ax) == Sign::Positive {
        [0, 1, 2]
    } else {
        [0, 2, 1]
    }
}

/// Directed edge `e` of `tri` (in counter-clockwise order) has all of
/// `other` on its non-positive side in the projection.
pub open spec fn separating_edge<H: Fn(usize, usize, usize, usize) -> Sign>(
    o2: H,
    tri: [usize; 3],
    other: [usize; 3],
    ax: usize,
    e: int,
) -> bool {
    let ord = ccw_order(o2, tri, ax);
    forall|p: int|
        0 <= p < 3 ==> orient2_sign(o2, tri[ord[e]], tri[ord[(e + 1) % 3]], #[trigger] other[p], ax) != Sign::Positive
}

/// Some edge of `tri` separates `other` from it in the projection (they are
/// disjoint or merely touch).
pub open spec fn separated_by<H: Fn(usize, usize, usize, usize) -> Sign>(
    o2: H,
    tri: [usize; 3],
    other: [usize; 3],
    ax: usize,
) -> bool {
    exists|e: int| 0 <= e < 3 && #[trigger] separating_edge(o2, tri, other, ax, e)
}

/// Triangles `g` and `tau` are coplanar and their open interiors overlap,
/// by the exact 2D separating-axis test in the first projection in which
/// `g` is non-degenerate; `None` when `g` is coplanar with `tau` but
/// degenerate in every projection.
pub open spec fn coplanar_overlap_by<F: Fn(usize, usize, usize, usize) -> Sign, H: Fn(usize, usize, usize, usize) -> Sign>(
    o: F,
    o2: H,
    g: [usize; 3],
    tau: [usize; 3],
) -> Option<bool> {
    if exists|p: int| 0 <= p < 3 && orient_sign(o, g[0], g[1], g[2], #[trigger] tau[p]) != Sign::Zero {
        Some(false)
    } else {
        match projection_axis(o2, g) {
            None => None,
            Some(ax) => Some(!separated_by(o2, g, tau, ax) && !separated_by(o2, tau, g, ax)),
        }
    }
}

/// Whether some edge of `tri` separates `other` (see [`separated_by`]).
fn separated<H: Fn(usize, usize, usize, usize) -> Sign>(o2: &H, tri: [usize; 3], other: [usize; 3], ax: usize) -> (r: bool)
    requires
        is_orient2_oracle(*o2),
    ensures
        r == separated_by(*o2, tri, other, ax),
{
    let ord: [usize; 3] = if orient2_of(o2, tri[0], tri[1], tri[2], ax) == Sign::Positive {
        [0, 1, 2]
    } else {
        [0, 2, 1]
    };
    let ghost sord = ccw_order(*o2, tri, ax);
    proof {
        assert(forall|k: int| 0 <= k < 3 ==> ord[k] as int == sord[k]);
    }
    let mut e: usize = 0;
    while e < 3
        invariant
            e <= 3,
            is_orient2_oracle(*o2),
            sord == ccw_order(*o2, tri, ax),
            forall|k: int| 0 <= k < 3 ==> ord[k] as int == sord[k],
            forall|k: int| 0 <= k < 3 ==> ord[k] < 3,
            forall|e2: int| 0 <= e2 < e ==> !#[trigger] separating_edge(*o2, tri, other, ax, e2),
        decreases 3 - e,
    {
        let a = tri[ord[e]];
        let b = tri[ord[if e == 2 {
            0
        } else {
            e + 1
        }]];
        proof {
            assert((e as int + 1) % 3 == if e == 2 { 0int } else { e as int + 1 });
        }
        let mut all = true;
        let mut p: usize = 0;
        while p < 3
            invariant
                e < 3,
                p <= 3,
                is_orient2_oracle(*o2),
                a == tri[sord[e as int]],
                b == tri[sord[(e as int + 1) % 3]],
                all <==> forall|q: int| 0 <= q < p ==> orient2_sign(*o2, a, b, #[trigger] other[q], ax) != Sign::Positive,
            decreases 3 - p,
        {
            if orient2_of(o2, a, b, other[p], ax) == Sign::Positive {
                all = false;
            }
            p += 1;
        }
        if all {
            proof {
                assert(separating_edge(*o2, tri, other, ax, e as int));
            }
            return true;
        }
        e += 1;
    }
    false
}

/// True if triangles `g` and `tau` are coplanar and their open interiors
/// overlap (see [`coplanar_overlap_by`]); `None` for a `g` degenerate in
/// every projection.
pub fn coplanar_open_overlap<F: Fn(usize, usize, usize, usize) -> Sign, H: Fn(usize, usize, usize, usize) -> Sign>(
    o: &F,
    o2: &H,
    g: [usize; 3],
    tau: [usize; 3],
) -> (r: Option<bool>)
    requires
        is_orient_oracle(*o),
        is_orient2_oracle(*o2),
    ensures
        r == coplanar_overlap_by(*o, *o2, g, tau),
{
    let mut p: usize = 0;
    while p < 3
        invariant
            p <= 3,
            is_orient_oracle(*o),
            forall|q: int| 0 <= q < p ==> orient_sign(*o, g[0], g[1], g[2], #[trigger] tau[q]) == Sign::Zero,
        decreases 3 - p,
    {
        if orient_of(o, g[0], g[1], g[2], tau[p]) != Sign::Zero {
            return Some(false);
        }
        p += 1;
    }
    let ax: usize = if orient2_of(o2, g[0], g[1], g[2], 0) != Sign::Zero {
        0
    } else if orient2_of(o2, g[0], g[1], g[2], 1) != Sign::Zero {
        1
    } else if orient2_of(o2, g[0], g[1], g[2], 2) != Sign::Zero {
        2
    } else {
        return None;
    };
    Some(!separated(o2, g, tau, ax) && !separated(o2, tau, g, ax))
}


/// `v` is a vertex of `t`.
pub open spec fn in4(t: [usize; 4], v: usize) -> bool {
    t[0] == v || t[1] == v || t[2] == v || t[3] == v
}

/// `v` lies strictly inside tet `t`: on the positive side of each of its
/// four inward-wound faces.
pub open spec fn strictly_inside_by<F: Fn(usize, usize, usize, usize) -> Sign>(o: F, t: [usize; 4], v: usize) -> bool {
    forall|i: int|
        0 <= i < 4 ==> orient_sign(
            o,
            (#[trigger] oriented_face_of(t, i))[0],
            oriented_face_of(t, i)[1],
            oriented_face_of(t, i)[2],
            v,
        ) == Sign::Positive
}

/// The coplanar-overlap test of front triangle `tau` against the inward
/// faces `i..4` of `t`, in face order: the first face that overlaps, or
/// whose test fails, decides.
pub open spec fn coplanar_any<F: Fn(usize, usize, usize, usize) -> Sign, H: Fn(usize, usize, usize, usize) -> Sign>(
    o: F,
    o2: H,
    t: [usize; 4],
    tau: [usize; 3],
    i: int,
) -> Option<bool>
    decreases 4 - i,
{
    if i >= 4 {
        Some(false)
    } else {
        match coplanar_overlap_by(o, o2, oriented_face_of(t, i), tau) {
            None => None,
            Some(true) => Some(true),
            Some(false) => coplanar_any(o, o2, t, tau, i + 1),
        }
    }
}

/// Whether the candidate tet `t` improperly crosses the front triangle
/// `tau`: a vertex of `tau` off `t` strictly inside `t`, a tet edge
/// piercing `tau` or an edge of `tau` piercing a tet face, or a coplanar
/// open overlap of a tet face with `tau`. A triangle spanned by vertices
/// of `t` never crosses it. `None` when the coplanar test fails.
pub open spec fn tau_crosses_by<F: Fn(usize, usize, usize, usize) -> Sign, H: Fn(usize, usize, usize, usize) -> Sign>(
    o: F,
    o2: H,
    t: [usize; 4],
    tau: [usize; 3],
) -> Option<bool> {
    if in4(t, tau[0]) && in4(t, tau[1]) && in4(t, tau[2]) {
        Some(false)
    } else if (exists|p: int| 0 <= p < 3 && !in4(t, #[trigger] tau[p]) && strictly_inside_by(o, t, tau[p]))
        || tet_crosses_tri_by(o, t, tau) {
        Some(true)
    } else {
        coplanar_any(o, o2, t, tau, 0)
    }
}

fn in4_of(t: [usize; 4], v: usize) -> (r: bool)
    ensures
        r == in4(t, v),
{
    t[0] == v || t[1] == v || t[2] == v || t[3] == v
}

fn strictly_inside<F: Fn(usize, usize, usize, usize) -> Sign>(o: &F, t: [usize; 4], v: usize) -> (r: bool)
    requires
        is_orient_oracle(*o),
    ensures
        r == strictly_inside_by(*o, t, v),
{
    let mut i: usize = 0;
    while i < 4
        invariant
            i <= 4,
            is_orient_oracle(*o),
            forall|k: int|
                0 <= k < i ==> orient_sign(
                    *o,
                    (#[trigger] oriented_face_of(t, k))[0],
                    oriented_face_of(t, k)[1],
                    oriented_face_of(t, k)[2],
                    v,
                ) == Sign::Positive,
        decreases 4 - i,
    {
        let g = oriented_face(t, i);
        if orient_of(o, g[0], g[1], g[2], v) != Sign::Positive {
            return false;
        }
        i += 1;
    }
    true
}

/// Whether tet `t` crosses front triangle `tau` (see [`tau_crosses_by`]).
fn tau_crosses<F: Fn(usize, usize, usize, usize) -> Sign, H: Fn(usize, usize, usize, usize) -> Sign>(
    o: &F,
    o2: &H,
    t: [usize; 4],
    tau: [usize; 3],
) -> (r: Option<bool>)
    requires
        is_orient_oracle(*o),
        is_orient2_oracle(*o2),
    ensures
        r == tau_crosses_by(*o, *o2, t, tau),
{
    if in4_of(t, tau[0]) && in4_of(t, tau[1]) && in4_of(t, tau[2]) {
        return Some(false);
    }
    let mut p: usize = 0;
    while p < 3
        invariant
            p <= 3,
            is_orient_oracle(*o),
            !(in4(t, tau[0]) && in4(t, tau[1]) && in4(t, tau[2])),
            forall|q: int| 0 <= q < p ==> !(!in4(t, #[trigger] tau[q]) && strictly_inside_by(*o, t, tau[q])),
        decreases 3 - p,
    {
        if !in4_of(t, tau[p]) && strictly_inside(o, t, tau[p]) {
            proof {
                assert(!in4(t, tau[p as int]) && strictly_inside_by(*o, t, tau[p as int]));
            }
            return Some(true);
        }
        p += 1;
    }
    if tet_crosses_tri(o, t, tau) {
        return Some(true);
    }
    let mut i: usize = 0;
    while i < 4
        invariant
            i <= 4,
            is_orient_oracle(*o),
            is_orient2_oracle(*o2),
            tau_crosses_by(*o, *o2, t, tau) == coplanar_any(*o, *o2, t, tau, 0),
            coplanar_any(*o, *o2, t, tau, 0) == coplanar_any(*o, *o2, t, tau, i as int),
        decreases 4 - i,
    {
        let g = oriented_face(t, i);
        match coplanar_open_overlap(o, o2, g, tau) {
            None => {
                return None;
            },
            Some(true) => {
                return Some(true);
            },
            Some(false) => {},
        }
        i += 1;
    }
    Some(false)
}

/// Whether the candidate tet `[f[0], f[1], f[2], w]` improperly crosses
/// the current front (see [`tau_crosses_by`]), testing the front triangles
/// in the map's iteration order: `Some(true)` if one crosses, `Some(false)`
/// if none does, `None` if a coplanar test fails first.
pub fn crosses_front<F: Fn(usize, usize, usize, usize) -> Sign, H: Fn(usize, usize, usize, usize) -> Sign>(
    o: &F,
    o2: &H,
    f: [usize; 3],
    w: usize,
    active: &FxHashMap<[usize; 3], [usize; 3]>,
) -> (r: Option<bool>)
    requires
        is_orient_oracle(*o),
        is_orient2_oracle(*o2),
    ensures
        r == Some(true) ==> exists|k: [usize; 3]|
            #[trigger] active@.contains_key(k) && tau_crosses_by(*o, *o2, [f[0], f[1], f[2], w], active@[k]) == Some(true),
        r == Some(false) ==> forall|k: [usize; 3]|
            #[trigger] active@.contains_key(k) ==> tau_crosses_by(*o, *o2, [f[0], f[1], f[2], w], active@[k]) == Some(false),
        r is None ==> exists|k: [usize; 3]|
            #[trigger] active@.contains_key(k) && tau_crosses_by(*o, *o2, [f[0], f[1], f[2], w], active@[k]) is None,
{
    let t = [f[0], f[1], f[2], w];
    let keys = fx_keys(active);
    let mut j: usize = 0;
    while j < keys.len()
        invariant
            j <= keys@.len(),
            is_orient_oracle(*o),
            is_orient2_oracle(*o2),
            t == [f[0], f[1], f[2], w],
            keys@.to_set() == active@.dom(),
            forall|m: int| 0 <= m < j ==> tau_crosses_by(*o, *o2, t, active@[#[trigger] keys@[m]]) == Some(false),
        decreases keys@.len() - j,
    {
        let k = keys[j];
        proof {
            assert(keys@.to_set().contains(k));
        }
        let tau = match fx_get(active, &k) {
            Some(tau) => tau,
            None => [0, 0, 0],
        };
        match tau_crosses(o, o2, t, tau) {
            None => {
                return None;
            },
            Some(true) => {
                return Some(true);
            },
            Some(false) => {},
        }
        j += 1;
    }
    proof {
        assert forall|k: [usize; 3]| #[trigger] active@.contains_key(k) implies tau_crosses_by(*o, *o2, t, active@[k])
            == Some(false) by {
            assert(keys@.to_set().contains(k));
            let m = choose|m: int| 0 <= m < keys@.len() && keys@[m] == k;
        }
    }
    Some(false)
}


/// Bound on the apex searches of one gift wrap.
pub const WRAP_MAX_STEPS: usize = 100000;

/// What the plane-side oracle `q` answers for vertex `v`: the exact side of
/// the facet plane it lies on (`Zero` on the plane).
pub open spec fn side_by<Q: Fn(usize) -> Sign>(q: Q, v: usize) -> Sign {
    choose|s: Sign| call_ensures(q, (v,), s)
}

/// `q` answers every vertex, always the same way.
pub open spec fn is_side_oracle<Q: Fn(usize) -> Sign>(q: Q) -> bool {
    &&& forall|v: usize| #[trigger] call_requires(q, (v,))
    &&& forall|v: usize, s: Sign, t: Sign| #[trigger] call_ensures(q, (v,), s) && #[trigger] call_ensures(q, (v,), t) ==> s == t
}

fn side_of<Q: Fn(usize) -> Sign>(q: &Q, v: usize) -> (r: Sign)
    requires
        is_side_oracle(*q),
    ensures
        r == side_by(*q, v),
{
    q(v)
}

/// All three corners of `f` lie on the facet plane.
pub open spec fn on_plane_tri<Q: Fn(usize) -> Sign>(q: Q, f: [usize; 3]) -> bool {
    side_by(q, f[0]) == Sign::Zero && side_by(q, f[1]) == Sign::Zero && side_by(q, f[2]) == Sign::Zero
}

/// `v` is one of `verts` or a corner of one of the `front` triangles.
pub open spec fn in_pool(front: Seq<[usize; 3]>, verts: Seq<usize>, v: usize) -> bool {
    verts.contains(v) || exists|j: int, k: int| 0 <= j < front.len() && 0 <= k < 3 && #[trigger] front[j][k] == v
}

/// The corners of `f` are all in the pool.
pub open spec fn tri_in_pool(front: Seq<[usize; 3]>, verts: Seq<usize>, f: [usize; 3]) -> bool {
    in_pool(front, verts, f[0]) && in_pool(front, verts, f[1]) && in_pool(front, verts, f[2])
}

/// Every triangle of the front map has its corners in the pool.
pub open spec fn front_in_pool(active: Map<[usize; 3], [usize; 3]>, front: Seq<[usize; 3]>, verts: Seq<usize>) -> bool {
    forall|k: [usize; 3]| #[trigger] active.contains_key(k) ==> tri_in_pool(front, verts, active[k])
}

/// A tet the gift wrap creates: positively oriented by `o`, its apex (last
/// vertex) one of `verts`, its base triangle spanned by pool vertices.
pub open spec fn wrap_tet<F: Fn(usize, usize, usize, usize) -> Sign>(
    o: F,
    front: Seq<[usize; 3]>,
    verts: Seq<usize>,
    t: [usize; 4],
) -> bool {
    &&& orient_sign(o, t[0], t[1], t[2], t[3]) == Sign::Positive
    &&& verts.contains(t[3])
    &&& tri_in_pool(front, verts, [t[0], t[1], t[2]])
}

/// Offers `f` to the front (see [`front_after`]), queueing it when it
/// becomes a new front triangle.
fn offer(active: &mut FxHashMap<[usize; 3], [usize; 3]>, queue: &mut Vec<[usize; 3]>, f: [usize; 3]) -> (ok: bool)
    ensures
        (ok, final(active)@) == front_after(old(active)@, f),
        final(queue)@ == if old(active)@.contains_key(face_key(f)) {
            old(queue)@
        } else {
            old(queue)@.push(f)
        },
{
    let k = sorted3(f);
    let fresh = fx_get(active, &k).is_none();
    let ok = front_xor(active, f);
    if fresh {
        queue.push(f);
    }
    ok
}

proof fn lemma_offer_in_pool(active: Map<[usize; 3], [usize; 3]>, front: Seq<[usize; 3]>, verts: Seq<usize>, f: [usize; 3])
    requires
        front_in_pool(active, front, verts),
        tri_in_pool(front, verts, f),
    ensures
        front_in_pool(front_after(active, f).1, front, verts),
{
    let m = front_after(active, f).1;
    assert forall|k: [usize; 3]| #[trigger] m.contains_key(k) implies tri_in_pool(front, verts, m[k]) by {
        if !(active.contains_key(k) && active[k] == m[k]) {
            assert(m[k] == f);
        }
    }
}

/// Vertex `s` may be tried as the apex over front triangle `f`: it is not a
/// corner of `f` and lies strictly on `f`'s positive side.
pub open spec fn apex_candidate<F: Fn(usize, usize, usize, usize) -> Sign>(o: F, f: [usize; 3], s: usize) -> bool {
    s != f[0] && s != f[1] && s != f[2] && orient_sign(o, f[0], f[1], f[2], s) == Sign::Positive
}

/// No front triangle crosses the tet `(f, s)` (every test decided, and no).
pub open spec fn front_clear<F: Fn(usize, usize, usize, usize) -> Sign, H: Fn(usize, usize, usize, usize) -> Sign>(
    o: F,
    o2: H,
    active: Map<[usize; 3], [usize; 3]>,
    f: [usize; 3],
    s: usize,
) -> bool {
    forall|k: [usize; 3]| #[trigger] active.contains_key(k) ==> tau_crosses_by(o, o2, [f[0], f[1], f[2], s], active[k]) == Some(false)
}

/// Every front triangle's crossing test against the tet `(f, s)` is decided.
pub open spec fn front_decided<F: Fn(usize, usize, usize, usize) -> Sign, H: Fn(usize, usize, usize, usize) -> Sign>(
    o: F,
    o2: H,
    active: Map<[usize; 3], [usize; 3]>,
    f: [usize; 3],
    s: usize,
) -> bool {
    forall|k: [usize; 3]| #[trigger] active.contains_key(k) ==> tau_crosses_by(o, o2, [f[0], f[1], f[2], s], active[k]) is Some
}

/// The apex choice over the first `n` candidates when every crossing test
/// is decided: the candidates whose tet no front triangle crosses, in
/// order, each one replacing the current choice when it lies inside the
/// circumsphere of `f` and that choice under symbolic perturbation;
/// `None` when such a perturbed test is fully degenerate, `Some(None)`
/// when no candidate qualifies.
pub open spec fn clear_pick<
    F: Fn(usize, usize, usize, usize) -> Sign,
    G: Fn(usize, usize, usize, usize, usize) -> Sign,
    H: Fn(usize, usize, usize, usize) -> Sign,
>(o: F, ins: G, o2: H, active: Map<[usize; 3], [usize; 3]>, f: [usize; 3], verts: Seq<usize>, n: int) -> Option<
    Option<usize>,
>
    decreases n,
{
    if n <= 0 {
        Some(None)
    } else {
        let prev = clear_pick(o, ins, o2, active, f, verts, n - 1);
        let s = verts[n - 1];
        match prev {
            None => None,
            Some(b) => if apex_candidate(o, f, s) && front_clear(o, o2, active, f, s) {
                match b {
                    None => Some(Some(s)),
                    Some(c) => match perturbed_sign(ins, o, [f[0], f[1], f[2], c], s) {
                        Some(Sign::Positive) => Some(Some(s)),
                        Some(_) => Some(Some(c)),
                        None => None,
                    },
                }
            } else {
                prev
            },
        }
    }
}

/// Once the apex choice hits a degenerate test, it stays failed.
proof fn lemma_clear_pick_stuck<
    F: Fn(usize, usize, usize, usize) -> Sign,
    G: Fn(usize, usize, usize, usize, usize) -> Sign,
    H: Fn(usize, usize, usize, usize) -> Sign,
>(o: F, ins: G, o2: H, active: Map<[usize; 3], [usize; 3]>, f: [usize; 3], verts: Seq<usize>, n: int, m: int)
    requires
        0 <= n <= m,
        clear_pick(o, ins, o2, active, f, verts, n) is None,
    ensures
        clear_pick(o, ins, o2, active, f, verts, m) is None,
    decreases m - n,
{
    if n < m {
        lemma_clear_pick_stuck(o, ins, o2, active, f, verts, n, m - 1);
    }
}

/// The apex step of [`gift_wrap`] on front triangle `f`: scans `verts` for
/// candidates on `f`'s positive side whose tet crosses no front triangle
/// ([`crosses_front`]), keeping the in-sphere-best by
/// [`perturbed_insphere`]. `Some(Some(w))` is the chosen apex, `Some(None)`
/// means every candidate's tet is crossed, `None` that a coplanar or
/// perturbed in-sphere test was fully degenerate. When every crossing test
/// of every candidate is decided, the choice is exactly [`clear_pick`].
pub fn wrap_apex<
    F: Fn(usize, usize, usize, usize) -> Sign,
    G: Fn(usize, usize, usize, usize, usize) -> Sign,
    H: Fn(usize, usize, usize, usize) -> Sign,
>(f: [usize; 3], verts: &[usize], active: &FxHashMap<[usize; 3], [usize; 3]>, o: &F, ins: &G, o2: &H) -> (r: Option<
    Option<usize>,
>)
    requires
        is_orient_oracle(*o),
        is_insphere_oracle(*ins),
        is_orient2_oracle(*o2),
    ensures
        r matches Some(Some(w)) ==> verts@.contains(w) && apex_candidate(*o, f, w) && front_clear(*o, *o2, active@, f, w),
        r matches Some(None) ==> forall|j: int|
            0 <= j < verts@.len() && apex_candidate(*o, f, #[trigger] verts@[j]) ==> !front_clear(*o, *o2, active@, f, verts@[j]),
        (forall|j: int|
            0 <= j < verts@.len() && apex_candidate(*o, f, #[trigger] verts@[j]) ==> front_decided(*o, *o2, active@, f, verts@[j]))
            ==> r == clear_pick(*o, *ins, *o2, active@, f, verts@, verts@.len() as int),
{
    let ghost all_decided = forall|j: int|
        0 <= j < verts@.len() && apex_candidate(*o, f, #[trigger] verts@[j]) ==> front_decided(*o, *o2, active@, f, verts@[j]);
    let mut best: Option<usize> = None;
    let mut x: usize = 0;
    while x < verts.len()
        invariant
            x <= verts@.len(),
            is_orient_oracle(*o),
            is_insphere_oracle(*ins),
            is_orient2_oracle(*o2),
            best matches Some(b) ==> verts@.contains(b) && apex_candidate(*o, f, b) && front_clear(*o, *o2, active@, f, b),
            best is None ==> forall|j: int|
                0 <= j < x && apex_candidate(*o, f, #[trigger] verts@[j]) ==> !front_clear(*o, *o2, active@, f, verts@[j]),
            all_decided == forall|j: int|
                0 <= j < verts@.len() && apex_candidate(*o, f, #[trigger] verts@[j]) ==> front_decided(
                    *o,
                    *o2,
                    active@,
                    f,
                    verts@[j],
                ),
            all_decided ==> clear_pick(*o, *ins, *o2, active@, f, verts@, x as int) == Some(best),
        decreases verts@.len() - x,
    {
        let w = verts[x];
        x += 1;
        proof {
            assert(verts@[x - 1] == w);
        }
        if w == f[0] || w == f[1] || w == f[2] {
            continue;
        }
        if orient_of(o, f[0], f[1], f[2], w) != Sign::Positive {
            continue;
        }
        proof {
            assert(apex_candidate(*o, f, w));
        }
        match crosses_front(o, o2, f, w, active) {
            None => {
                proof {
                    if all_decided {
                        let k = choose|k: [usize; 3]|
                            #[trigger] active@.contains_key(k) && tau_crosses_by(*o, *o2, [f[0], f[1], f[2], w], active@[k])
                                is None;
                        assert(front_decided(*o, *o2, active@, f, verts@[x - 1]));
                    }
                }
                return None;
            },
            Some(true) => {
                proof {
                    let k = choose|k: [usize; 3]|
                        #[trigger] active@.contains_key(k) && tau_crosses_by(*o, *o2, [f[0], f[1], f[2], w], active@[k])
                            == Some(true);
                    assert(!front_clear(*o, *o2, active@, f, w));
                }
                continue;
            },
            Some(false) => {},
        }
        best = match best {
            None => Some(w),
            Some(cur) => match perturbed_insphere(ins, o, [f[0], f[1], f[2], cur], w) {
                Some(Sign::Positive) => Some(w),
                Some(_) => Some(cur),
                None => {
                    proof {
                        if all_decided {
                            assert(clear_pick(*o, *ins, *o2, active@, f, verts@, x as int) is None);
                            lemma_clear_pick_stuck(*o, *ins, *o2, active@, f, verts@, x as int, verts@.len() as int);
                        }
                    }
                    return None;
                },
            },
        };
    }
    Some(best)
}

/// The front changes of one step of [`gift_wrap`] building tet `t`: its
/// base consumed (offered reversed), then its side faces `0`, `1`, `2`
/// offered reversed (unfilled side positive).
pub open spec fn gw_tet_events(t: [usize; 4]) -> Seq<[usize; 3]> {
    seq![
        reversal([t[0], t[1], t[2]]),
        reversal(oriented_face_of(t, 0)),
        reversal(oriented_face_of(t, 1)),
        reversal(oriented_face_of(t, 2)),
    ]
}

/// The front changes of [`gift_wrap`] building `tets` in order.
pub open spec fn gw_events(tets: Seq<[usize; 4]>) -> Seq<[usize; 3]>
    decreases tets.len(),
{
    if tets.len() == 0 {
        Seq::empty()
    } else {
        gw_events(tets.drop_last()) + gw_tet_events(tets.last())
    }
}

/// Each triangle of `s`, reversed.
pub open spec fn reversals(s: Seq<[usize; 3]>) -> Seq<[usize; 3]> {
    s.map_values(|g: [usize; 3]| reversal(g))
}

/// The wrap closes the front: offering the front, then the changes of
/// building `made` and of lifting the interface tiles `iface` off it (in
/// some order), cancels every triangle and refuses none.
#[verifier::opaque]
pub open spec fn wrap_closes(front: Seq<[usize; 3]>, made: Seq<[usize; 4]>, iface: Seq<[usize; 3]>) -> bool {
    exists|ev: Seq<[usize; 3]>|
        #[trigger] front_fold(Map::empty(), front + ev) == (true, Map::<[usize; 3], [usize; 3]>::empty())
            && ev.to_multiset() == gw_events(made).to_multiset().add(reversals(iface).to_multiset())
}

/// One move of [`gift_wrap`]: a front triangle lifted off the front as
/// interface, or a tet built over a front triangle.
pub enum WrapMove {
    Lift([usize; 3]),
    Build([usize; 4]),
}

/// The front changes of one move: a lifted triangle is consumed; a built
/// tet changes the front as [`gw_tet_events`] says.
pub open spec fn move_events(m: WrapMove) -> Seq<[usize; 3]> {
    match m {
        WrapMove::Lift(g) => seq![reversal(g)],
        WrapMove::Build(t) => gw_tet_events(t),
    }
}

/// The front changes of the moves `ms` in order.
pub open spec fn moves_events(ms: Seq<WrapMove>) -> Seq<[usize; 3]>
    decreases ms.len(),
{
    if ms.len() == 0 {
        Seq::empty()
    } else {
        moves_events(ms.drop_last()) + move_events(ms.last())
    }
}

/// The tets the moves `ms` build, in order.
pub open spec fn built(ms: Seq<WrapMove>) -> Seq<[usize; 4]>
    decreases ms.len(),
{
    if ms.len() == 0 {
        Seq::empty()
    } else {
        match ms.last() {
            WrapMove::Build(t) => built(ms.drop_last()).push(t),
            WrapMove::Lift(_) => built(ms.drop_last()),
        }
    }
}

/// The triangles the moves `ms` lift off, in order.
pub open spec fn lifted(ms: Seq<WrapMove>) -> Seq<[usize; 3]>
    decreases ms.len(),
{
    if ms.len() == 0 {
        Seq::empty()
    } else {
        match ms.last() {
            WrapMove::Lift(g) => lifted(ms.drop_last()).push(g),
            WrapMove::Build(_) => lifted(ms.drop_last()),
        }
    }
}

/// One more move adds its front changes, and its tet or its triangle.
proof fn lemma_moves_push(ms: Seq<WrapMove>, m: WrapMove)
    ensures
        moves_events(ms.push(m)) == moves_events(ms) + move_events(m),
        built(ms.push(m)) == match m {
            WrapMove::Build(t) => built(ms).push(t),
            WrapMove::Lift(_) => built(ms),
        },
        lifted(ms.push(m)) == match m {
            WrapMove::Lift(g) => lifted(ms).push(g),
            WrapMove::Build(_) => lifted(ms),
        },
{
    assert(ms.push(m).drop_last() =~= ms);
}

/// Every crossing test of every apex candidate over `f` against the front
/// `active` is decided.
pub open spec fn picks_decided<F: Fn(usize, usize, usize, usize) -> Sign, H: Fn(usize, usize, usize, usize) -> Sign>(
    o: F,
    o2: H,
    active: Map<[usize; 3], [usize; 3]>,
    f: [usize; 3],
    verts: Seq<usize>,
) -> bool {
    forall|j: int| 0 <= j < verts.len() && apex_candidate(o, f, #[trigger] verts[j]) ==> front_decided(o, o2, active, f, verts[j])
}

/// Front triangle `g` is lifted off as interface rather than wrapped: with
/// `skip_plane`, a triangle on the plane of `side`.
pub open spec fn lifts<Q: Fn(usize) -> Sign>(side: Q, skip_plane: bool, g: [usize; 3]) -> bool {
    skip_plane && on_plane_tri(side, g)
}

/// Move `j` of `ms` follows the wrap from the initial front `front`: the
/// offers before it were accepted and the front they leave holds the
/// triangle it lifts or builds on; a lifted triangle lies on the plane;
/// a built tet's apex is a candidate of `verts` whose tet no front triangle
/// crosses, and is the [`clear_pick`] choice when every crossing test of
/// the candidates is decided.
pub open spec fn gw_move_ok<
    F: Fn(usize, usize, usize, usize) -> Sign,
    G: Fn(usize, usize, usize, usize, usize) -> Sign,
    H: Fn(usize, usize, usize, usize) -> Sign,
    Q: Fn(usize) -> Sign,
>(
    o: F,
    ins: G,
    o2: H,
    side: Q,
    skip_plane: bool,
    front: Seq<[usize; 3]>,
    verts: Seq<usize>,
    ms: Seq<WrapMove>,
    j: int,
) -> bool {
    let fr = front_fold(Map::empty(), front + moves_events(ms.take(j)));
    &&& fr.0
    &&& match ms[j] {
        WrapMove::Lift(g) => lifts(side, skip_plane, g) && fr.1.contains_key(face_key(g)) && fr.1[face_key(g)] == g,
        WrapMove::Build(t) => {
            let base = [t[0], t[1], t[2]];
            &&& fr.1.contains_key(face_key(base))
            &&& fr.1[face_key(base)] == base
            &&& !lifts(side, skip_plane, base)
            &&& verts.contains(t[3])
            &&& apex_candidate(o, base, t[3])
            &&& front_clear(o, o2, fr.1, base, t[3])
            &&& picks_decided(o, o2, fr.1, base, verts) ==> clear_pick(o, ins, o2, fr.1, base, verts, verts.len() as int)
                == Some(Some(t[3]))
        },
    }
}

/// `ms` is a run of the wrap from the initial front `front`.
pub open spec fn gw_run<
    F: Fn(usize, usize, usize, usize) -> Sign,
    G: Fn(usize, usize, usize, usize, usize) -> Sign,
    H: Fn(usize, usize, usize, usize) -> Sign,
    Q: Fn(usize) -> Sign,
>(o: F, ins: G, o2: H, side: Q, skip_plane: bool, front: Seq<[usize; 3]>, verts: Seq<usize>, ms: Seq<WrapMove>) -> bool {
    forall|j: int| 0 <= j < ms.len() ==> #[trigger] gw_move_ok(o, ins, o2, side, skip_plane, front, verts, ms, j)
}

/// After the run `ms` the wrap cannot go on: its offers were accepted and
/// a front triangle that is not lifted off remains, with the step bound
/// [`WRAP_MAX_STEPS`] reached, or a crossing test of one of its candidates
/// undecided, or no apex for it by [`clear_pick`] (none qualifies or an
/// in-sphere test is degenerate), or the front refusing its tet.
pub open spec fn gw_stuck<
    F: Fn(usize, usize, usize, usize) -> Sign,
    G: Fn(usize, usize, usize, usize, usize) -> Sign,
    H: Fn(usize, usize, usize, usize) -> Sign,
    Q: Fn(usize) -> Sign,
>(o: F, ins: G, o2: H, side: Q, skip_plane: bool, front: Seq<[usize; 3]>, verts: Seq<usize>, ms: Seq<WrapMove>) -> bool {
    let fr = front_fold(Map::empty(), front + moves_events(ms));
    &&& fr.0
    &&& exists|k: [usize; 3]|
        #[trigger] fr.1.contains_key(k) && !lifts(side, skip_plane, fr.1[k]) && {
            let f = fr.1[k];
            ||| built(ms).len() >= WRAP_MAX_STEPS
            ||| !picks_decided(o, o2, fr.1, f, verts)
            ||| match clear_pick(o, ins, o2, fr.1, f, verts, verts.len() as int) {
                Some(Some(w)) => !front_fold(
                    Map::empty(),
                    front + moves_events(ms.push(WrapMove::Build([f[0], f[1], f[2], w]))),
                ).0,
                _ => true,
            }
        }
}

/// A run followed by one more move of the wrap is a run.
proof fn lemma_gw_run_push<
    F: Fn(usize, usize, usize, usize) -> Sign,
    G: Fn(usize, usize, usize, usize, usize) -> Sign,
    H: Fn(usize, usize, usize, usize) -> Sign,
    Q: Fn(usize) -> Sign,
>(o: F, ins: G, o2: H, side: Q, skip_plane: bool, front: Seq<[usize; 3]>, verts: Seq<usize>, ms: Seq<WrapMove>, m: WrapMove)
    requires
        gw_run(o, ins, o2, side, skip_plane, front, verts, ms),
        gw_move_ok(o, ins, o2, side, skip_plane, front, verts, ms.push(m), ms.len() as int),
    ensures
        gw_run(o, ins, o2, side, skip_plane, front, verts, ms.push(m)),
{
    let nm = ms.push(m);
    assert forall|j: int| 0 <= j < nm.len() implies #[trigger] gw_move_ok(o, ins, o2, side, skip_plane, front, verts, nm, j) by {
        if j < ms.len() {
            assert(nm.take(j) =~= ms.take(j));
            assert(gw_move_ok(o, ins, o2, side, skip_plane, front, verts, ms, j));
            assert(nm[j] == ms[j]);
        }
    }
}

/// An element of a sequence other than its last stays when the last goes.
proof fn lemma_drop_last_keeps<A>(s: Seq<A>, x: A)
    requires
        s.len() > 0,
        s.contains(x),
        x != s.last(),
    ensures
        s.subrange(0, s.len() - 1).contains(x),
{
    let j = choose|j: int| 0 <= j < s.len() && s[j] == x;
    assert(s.subrange(0, s.len() - 1)[j] == x);
}

/// Gift wrapping of one region: `front` are oriented triangles with the
/// unfilled region on their positive side; apexes come from `verts`. Each
/// step takes a front triangle and the apex [`wrap_apex`] picks: on its
/// positive side, with a tet that crosses no front triangle, preferring
/// (pencil order) the apex inside the circumsphere of the current choice
/// under symbolic perturbation ([`perturbed_insphere`]); the
/// tet is appended to `out` and its three side faces, reversed, are offered
/// to the front. With `skip_plane` (the first half of a split cavity), a
/// front triangle lying on the facet plane (all corners on side `Zero` by
/// the plane-side oracle `side`) is not wrapped but returned as interface
/// for the second half. `None` when two front triangles meet with
/// equal orientation, a triangle has no valid apex, a coplanar or in-sphere
/// test is fully degenerate, or the step bound [`WRAP_MAX_STEPS`] is
/// exceeded.
pub fn gift_wrap<
    F: Fn(usize, usize, usize, usize) -> Sign,
    G: Fn(usize, usize, usize, usize, usize) -> Sign,
    H: Fn(usize, usize, usize, usize) -> Sign,
    Q: Fn(usize) -> Sign,
>(
    front: Vec<[usize; 3]>,
    verts: &[usize],
    skip_plane: bool,
    out: &mut Vec<[usize; 4]>,
    o: &F,
    ins: &G,
    o2: &H,
    side: &Q,
) -> (interface: Option<Vec<[usize; 3]>>)
    requires
        is_orient_oracle(*o),
        is_insphere_oracle(*ins),
        is_orient2_oracle(*o2),
        is_side_oracle(*side),
    ensures
        final(out)@.len() >= old(out)@.len(),
        final(out)@.subrange(0, old(out)@.len() as int) == old(out)@,
        forall|j: int|
            old(out)@.len() <= j < final(out)@.len() ==> wrap_tet(*o, front@, verts@, #[trigger] final(out)@[j]),
        !front_fold(Map::empty(), front@).0 ==> interface is None && final(out)@ == old(out)@,
        front@.len() == 0 ==> (interface matches Some(s) && s@.len() == 0) && final(out)@ == old(out)@,
        interface matches Some(s) ==> wrap_closes(
            front@,
            final(out)@.subrange(old(out)@.len() as int, final(out)@.len() as int),
            s@,
        ),
        interface matches Some(s) ==> {
            &&& !skip_plane ==> s@.len() == 0
            &&& forall|j: int|
                0 <= j < s@.len() ==> tri_in_pool(front@, verts@, #[trigger] s@[j]) && on_plane_tri(*side, s@[j])
        },
        interface matches Some(s) ==> exists|ms: Seq<WrapMove>|
            #[trigger] gw_run(*o, *ins, *o2, *side, skip_plane, front@, verts@, ms) && built(ms) == final(out)@.subrange(
                old(out)@.len() as int,
                final(out)@.len() as int,
            ) && lifted(ms) == s@ && front_fold(Map::empty(), front@ + moves_events(ms)) == (true, Map::<
                [usize; 3],
                [usize; 3],
            >::empty()),
        interface is None ==> !front_fold(Map::empty(), front@).0 || exists|ms: Seq<WrapMove>|
            #[trigger] gw_run(*o, *ins, *o2, *side, skip_plane, front@, verts@, ms) && gw_stuck(
                *o,
                *ins,
                *o2,
                *side,
                skip_plane,
                front@,
                verts@,
                ms,
            ),
{
    broadcast use vstd::seq_lib::group_to_multiset_ensures, vstd::multiset::group_multiset_axioms;

    let ghost front0 = front@;
    let ghost out0 = out@;
    proof {
        reveal(front_fold);
        assert(front@.subrange(0, 0) =~= Seq::<[usize; 3]>::empty());
    }
    let mut active: FxHashMap<[usize; 3], [usize; 3]> = fx_empty();
    let mut queue: Vec<[usize; 3]> = Vec::new();
    let mut i: usize = 0;
    while i < front.len()
        invariant
            front0 == front@,
            i <= front@.len(),
            front_keyed(active@),
            front_in_pool(active@, front0, verts@),
            (true, active@) == front_fold(Map::empty(), front0.subrange(0, i as int)),
            queue@.len() <= i,
            out@ == out0,
            out0 == old(out)@,
            forall|k: [usize; 3]| #[trigger] active@.contains_key(k) ==> queue@.contains(active@[k]),
        decreases front@.len() - i,
    {
        let f = front[i];
        let ghost before = active@;
        proof {
            assert forall|k: int| 0 <= k < 3 implies in_pool(front0, verts@, #[trigger] f[k]) by {
                assert(front0[i as int][k] == f[k]);
            }
            lemma_front_stays_keyed(before, f);
            lemma_offer_in_pool(before, front0, verts@, f);
        }
        let ghost qb = queue@;
        let ok = offer(&mut active, &mut queue, f);
        proof {
            assert forall|k: [usize; 3]| #[trigger] active@.contains_key(k) implies queue@.contains(active@[k]) by {
                if before.contains_key(k) && before[k] == active@[k] {
                    assert(qb.contains(active@[k]));
                    if !before.contains_key(face_key(f)) {
                        let j = choose|j: int| 0 <= j < qb.len() && qb[j] == active@[k];
                        assert(queue@[j] == active@[k]);
                    }
                } else {
                    assert(active@[k] == f);
                    assert(queue@[queue@.len() - 1] == f);
                }
            }
            reveal(front_fold);
            assert(front0.subrange(0, i + 1).drop_last() =~= front0.subrange(0, i as int));
            assert(front0.subrange(0, i + 1).last() == f);
        }
        if !ok {
            proof {
                lemma_fold_refusal_sticks(Map::empty(), front0, i + 1);
            }
            return None;
        }
        i += 1;
    }
    proof {
        assert(front0.subrange(0, front0.len() as int) =~= front0);
    }
    let mut interface: Vec<[usize; 3]> = Vec::new();
    let mut steps: usize = 0;
    let ghost mut ev: Seq<[usize; 3]> = Seq::empty();
    let ghost mut ms: Seq<WrapMove> = Seq::empty();
    proof {
        assert(front0 + ev =~= front0);
        assert(built(ms) =~= out@.subrange(out0.len() as int, out@.len() as int));
        assert(lifted(ms) =~= interface@);
        assert(moves_events(ms) =~= ev);
        assert(out@.subrange(out0.len() as int, out@.len() as int) =~= Seq::<[usize; 4]>::empty());
        assert(reversals(interface@) =~= Seq::<[usize; 3]>::empty());
        assert(gw_events(out@.subrange(out0.len() as int, out@.len() as int)) =~= Seq::<[usize; 3]>::empty());
        assert(Seq::<[usize; 3]>::empty().to_multiset() =~= vstd::multiset::Multiset::<[usize; 3]>::empty());
        assert(ev.to_multiset() =~= gw_events(out@.subrange(out0.len() as int, out@.len() as int)).to_multiset().add(
            reversals(interface@).to_multiset(),
        ));
    }
    while queue.len() > 0
        invariant
            is_orient_oracle(*o),
            is_insphere_oracle(*ins),
            is_orient2_oracle(*o2),
            is_side_oracle(*side),
            steps <= WRAP_MAX_STEPS,
            out0 == old(out)@,
            front0 == front@,
            front_fold(Map::empty(), front0).0,
            front_keyed(active@),
            front_in_pool(active@, front0, verts@),
            out@.len() >= out0.len(),
            out@.subrange(0, out0.len() as int) == out0,
            forall|j: int| out0.len() <= j < out@.len() ==> wrap_tet(*o, front0, verts@, #[trigger] out@[j]),
            !skip_plane ==> interface@.len() == 0,
            front0.len() == 0 ==> queue@.len() == 0 && out@ == out0 && interface@.len() == 0,
            forall|j: int|
                0 <= j < interface@.len() ==> tri_in_pool(front0, verts@, #[trigger] interface@[j]) && on_plane_tri(
                    *side,
                    interface@[j],
                ),
            forall|k: [usize; 3]| #[trigger] active@.contains_key(k) ==> queue@.contains(active@[k]),
            (true, active@) == front_fold(Map::empty(), front0 + ev),
            ev.to_multiset() == gw_events(out@.subrange(out0.len() as int, out@.len() as int)).to_multiset().add(
                reversals(interface@).to_multiset(),
            ),
            ev == moves_events(ms),
            gw_run(*o, *ins, *o2, *side, skip_plane, front0, verts@, ms),
            built(ms) == out@.subrange(out0.len() as int, out@.len() as int),
            lifted(ms) == interface@,
            steps == built(ms).len(),
        decreases 4 * (WRAP_MAX_STEPS - steps) + queue@.len(),
    {
        let ghost qb = queue@;
        let f = match queue.pop() {
            Some(f) => f,
            None => [0, 0, 0],
        };
        proof {
            assert(f == qb.last());
            assert forall|k: [usize; 3]|
                #[trigger] active@.contains_key(k) && active@[k] != f implies queue@.contains(active@[k]) by {
                lemma_drop_last_keeps(qb, active@[k]);
            }
        }
        let ghost qlen = queue@.len();
        let key = sorted3(f);
        let live = match fx_get(&active, &key) {
            Some(g) => g[0] == f[0] && g[1] == f[1] && g[2] == f[2],
            None => false,
        };
        if !live {
            proof {
                assert forall|k: [usize; 3]| #[trigger] active@.contains_key(k) implies queue@.contains(active@[k]) by {
                    if active@[k] == f {
                        assert(k == face_key(active@[k]));
                        assert(active@[key] =~= f);
                    }
                }
            }
            continue;
        }
        proof {
            assert(active@[key] =~= f);
            assert(tri_in_pool(front0, verts@, f));
        }
        if skip_plane && side_of(side, f[0]) == Sign::Zero && side_of(side, f[1]) == Sign::Zero && side_of(side, f[2])
            == Sign::Zero {
            let ghost before = active@;
            fx_remove(&mut active, &key);
            let ghost ibefore = interface@;
            interface.push(f);
            proof {
                assert forall|k: [usize; 3]| #[trigger] active@.contains_key(k) implies queue@.contains(active@[k]) by {
                    assert(before.contains_key(k));
                    if before[k] == f {
                        assert(k == face_key(before[k]));
                    }
                }
                let m = WrapMove::Lift(f);
                lemma_moves_push(ms, m);
                assert(ms.push(m).take(ms.len() as int) =~= ms);
                assert(gw_move_ok(*o, *ins, *o2, *side, skip_plane, front0, verts@, ms.push(m), ms.len() as int));
                lemma_gw_run_push(*o, *ins, *o2, *side, skip_plane, front0, verts@, ms, m);
                ms = ms.push(m);
                lemma_consume_is_reversal(before, f);
                lemma_fold_push(Map::empty(), front0 + ev, reversal(f));
                let ev0 = ev;
                ev = ev.push(reversal(f));
                assert((front0 + ev0).push(reversal(f)) =~= front0 + ev);
                assert(reversals(interface@) =~= reversals(ibefore).push(reversal(f)));
                vstd::seq_lib::to_multiset_build(ev0, reversal(f));
                vstd::seq_lib::to_multiset_build(reversals(ibefore), reversal(f));
                assert(ev.to_multiset() =~= ev0.to_multiset().insert(reversal(f)));
                assert(reversals(interface@).to_multiset() =~= reversals(ibefore).to_multiset().insert(reversal(f)));
                assert(ev.to_multiset() =~= gw_events(out@.subrange(out0.len() as int, out@.len() as int)).to_multiset().add(
                    reversals(interface@).to_multiset(),
                ));
                assert forall|k: [usize; 3]| #[trigger] active@.contains_key(k) implies tri_in_pool(front0, verts@, active@[k])
                    && k == face_key(active@[k]) by {
                    assert(before.contains_key(k));
                }
                assert forall|j: int| 0 <= j < interface@.len() implies tri_in_pool(front0, verts@, #[trigger] interface@[j])
                    && on_plane_tri(*side, interface@[j]) by {
                    if j < ibefore.len() {
                        assert(interface@[j] == ibefore[j]);
                    }
                }
            }
            continue;
        }
        proof {
            assert(!lifts(*side, skip_plane, active@[key]));
        }
        if steps >= WRAP_MAX_STEPS {
            proof {
                assert(active@.contains_key(key));
                assert(gw_stuck(*o, *ins, *o2, *side, skip_plane, front0, verts@, ms));
            }
            return None;
        }
        steps += 1;
        let pick = wrap_apex(f, verts, &active, o, ins, o2);
        let w = match pick {
            Some(Some(w)) => w,
            _ => {
                proof {
                    assert(active@.contains_key(key));
                    if picks_decided(*o, *o2, active@, f, verts@) {
                        assert(clear_pick(*o, *ins, *o2, active@, f, verts@, verts@.len() as int) == pick);
                    }
                    assert(gw_stuck(*o, *ins, *o2, *side, skip_plane, front0, verts@, ms));
                }
                return None;
            },
        };
        let ghost act0 = active@;
        let ghost mb = WrapMove::Build([f[0], f[1], f[2], w]);
        proof {
            assert(ms.push(mb).take(ms.len() as int) =~= ms);
            assert([f[0], f[1], f[2]] =~= f);
            assert(gw_move_ok(*o, *ins, *o2, *side, skip_plane, front0, verts@, ms.push(mb), ms.len() as int));
        }
        let ghost before = active@;
        fx_remove(&mut active, &key);
        let ghost ev0 = ev;
        proof {
            assert forall|k: [usize; 3]| #[trigger] active@.contains_key(k) implies tri_in_pool(front0, verts@, active@[k])
                && k == face_key(active@[k]) by {
                assert(before.contains_key(k));
            }
            assert forall|k: [usize; 3]| #[trigger] active@.contains_key(k) implies queue@.contains(active@[k]) by {
                assert(before.contains_key(k));
                if before[k] == f {
                    assert(k == face_key(before[k]));
                }
            }
            lemma_consume_is_reversal(before, f);
            lemma_fold_push(Map::empty(), front0 + ev, reversal(f));
            ev = ev.push(reversal(f));
            assert((front0 + ev0).push(reversal(f)) =~= front0 + ev);
        }
        let t = [f[0], f[1], f[2], w];
        let ghost obefore = out@;
        out.push(t);
        proof {
            assert(wrap_tet(*o, front0, verts@, t));
            assert(out@.subrange(0, out0.len() as int) =~= obefore.subrange(0, out0.len() as int));
            assert forall|j: int| out0.len() <= j < out@.len() implies wrap_tet(*o, front0, verts@, #[trigger] out@[j]) by {
                if j < obefore.len() {
                    assert(out@[j] == obefore[j]);
                }
            }
            assert(in_pool(front0, verts@, w));
            assert(gw_tet_events(t)[0] == reversal(f));
        }
        let mut si: usize = 0;
        while si < 3
            invariant
                si <= 3,
                t == [f[0], f[1], f[2], w],
                tri_in_pool(front0, verts@, f),
                in_pool(front0, verts@, w),
                front_keyed(active@),
                front_in_pool(active@, front0, verts@),
                queue@.len() <= qlen + si,
                out0 == old(out)@,
                front0 == front@,
                front_fold(Map::empty(), front0).0,
                front0.len() > 0,
                out@.len() >= out0.len(),
                out@.subrange(0, out0.len() as int) == out0,
                forall|j: int| out0.len() <= j < out@.len() ==> wrap_tet(*o, front0, verts@, #[trigger] out@[j]),
                forall|k: [usize; 3]| #[trigger] active@.contains_key(k) ==> queue@.contains(active@[k]),
                (true, active@) == front_fold(Map::empty(), front0 + ev),
                ev == ev0 + gw_tet_events(t).subrange(0, si + 1),
                ev0 == moves_events(ms),
                (true, act0) == front_fold(Map::empty(), front0 + ev0),
                act0.contains_key(key) && act0[key] == f,
                key == face_key(f),
                !lifts(*side, skip_plane, f),
                picks_decided(*o, *o2, act0, f, verts@) ==> clear_pick(*o, *ins, *o2, act0, f, verts@, verts@.len() as int)
                    == Some(Some(w)),
                mb == WrapMove::Build(t),
                gw_run(*o, *ins, *o2, *side, skip_plane, front0, verts@, ms),
                gw_move_ok(*o, *ins, *o2, *side, skip_plane, front0, verts@, ms.push(mb), ms.len() as int),
                built(ms) == obefore.subrange(out0.len() as int, obefore.len() as int),
                out@ == obefore.push(t),
                obefore.len() >= out0.len(),
                lifted(ms) == interface@,
                steps == built(ms).len() + 1,
            decreases 3 - si,
        {
            let g = oriented_face(t, si);
            let nf = [g[0], g[2], g[1]];
            let ghost before = active@;
            let ghost qb = queue@;
            proof {
                assert forall|k: int| 0 <= k < 3 implies in_pool(front0, verts@, #[trigger] nf[k]) by {
                    assert(nf[k] == t[0] || nf[k] == t[1] || nf[k] == t[2] || nf[k] == t[3]);
                }
                lemma_front_stays_keyed(before, nf);
                lemma_offer_in_pool(before, front0, verts@, nf);
            }
            let ghost eb = ev;
            if !offer(&mut active, &mut queue, nf) {
                proof {
                    assert(nf == reversal(oriented_face_of(t, si as int)));
                    assert(gw_tet_events(t)[si + 1] == nf);
                    lemma_fold_push(Map::empty(), front0 + eb, nf);
                    assert((front0 + eb).push(nf) =~= (front0 + ev0 + gw_tet_events(t)).subrange(
                        0,
                        front0.len() + ev0.len() + si + 2,
                    ));
                    lemma_fold_refusal_sticks(Map::empty(), front0 + ev0 + gw_tet_events(t), front0.len() + ev0.len() + si + 2);
                    lemma_moves_push(ms, mb);
                    assert(front0 + moves_events(ms.push(mb)) =~= front0 + ev0 + gw_tet_events(t));
                    assert(act0.contains_key(key));
                    assert(act0[key] == f);
                    assert([act0[key][0], act0[key][1], act0[key][2], w] =~= t);
                    if picks_decided(*o, *o2, act0, f, verts@) {
                        assert(clear_pick(*o, *ins, *o2, act0, f, verts@, verts@.len() as int) == Some(Some(w)));
                    }
                    assert(gw_stuck(*o, *ins, *o2, *side, skip_plane, front0, verts@, ms));
                }
                return None;
            }
            proof {
                assert forall|k: [usize; 3]| #[trigger] active@.contains_key(k) implies queue@.contains(active@[k]) by {
                    if before.contains_key(k) && before[k] == active@[k] {
                        assert(qb.contains(active@[k]));
                        if !before.contains_key(face_key(nf)) {
                            let j = choose|j: int| 0 <= j < qb.len() && qb[j] == active@[k];
                            assert(queue@[j] == active@[k]);
                        }
                    } else {
                        assert(active@[k] == nf);
                        assert(queue@[queue@.len() - 1] == nf);
                    }
                }
                assert(nf == reversal(oriented_face_of(t, si as int)));
                assert(gw_tet_events(t)[si + 1] == nf);
                lemma_fold_push(Map::empty(), front0 + ev, nf);
                let evb = ev;
                ev = ev.push(nf);
                assert((front0 + evb).push(nf) =~= front0 + ev);
                assert(ev =~= ev0 + gw_tet_events(t).subrange(0, si + 2));
            }
            si += 1;
        }
        proof {
            let nw = out@.subrange(out0.len() as int, out@.len() as int);
            let nw0 = obefore.subrange(out0.len() as int, obefore.len() as int);
            assert(nw.drop_last() =~= nw0);
            assert(nw.last() == t);
            assert(gw_events(nw) == gw_events(nw0) + gw_tet_events(t));
            assert(gw_tet_events(t).subrange(0, 4) =~= gw_tet_events(t));
            vstd::seq_lib::lemma_multiset_commutative(ev0, gw_tet_events(t));
            vstd::seq_lib::lemma_multiset_commutative(gw_events(nw0), gw_tet_events(t));
            assert(ev.to_multiset() =~= gw_events(nw).to_multiset().add(reversals(interface@).to_multiset()));
            lemma_moves_push(ms, mb);
            lemma_gw_run_push(*o, *ins, *o2, *side, skip_plane, front0, verts@, ms, mb);
            ms = ms.push(mb);
            assert(nw =~= nw0.push(t));
        }
    }
    proof {
        assert(active@ =~= Map::<[usize; 3], [usize; 3]>::empty()) by {
            assert forall|k: [usize; 3]| !active@.contains_key(k) by {
                if active@.contains_key(k) {
                    assert(queue@.contains(active@[k]));
                }
            }
        }
        assert(front_fold(Map::empty(), front0 + ev) == (true, Map::<[usize; 3], [usize; 3]>::empty()));
        reveal(wrap_closes);
        assert(wrap_closes(front0, out@.subrange(out0.len() as int, out@.len() as int), interface@));
        assert(gw_run(*o, *ins, *o2, *side, skip_plane, front0, verts@, ms));
    }
    Some(interface)
}


/// Every pool vertex of `front` and `verts` is a vertex of the cavity.
proof fn lemma_pool_in_cavity(slab: TetSlab, comp: Seq<u32>, front: Seq<[usize; 3]>, verts: Seq<usize>, v: usize)
    requires
        forall|j: int, k: int| 0 <= j < front.len() && 0 <= k < 3 ==> is_cavity_vertex(slab, comp, #[trigger] front[j][k]),
        forall|x: int| 0 <= x < verts.len() ==> is_cavity_vertex(slab, comp, #[trigger] verts[x]),
        in_pool(front, verts, v),
    ensures
        is_cavity_vertex(slab, comp, v),
{
    if verts.contains(v) {
        let x = choose|x: int| 0 <= x < verts.len() && verts[x] == v;
        assert(is_cavity_vertex(slab, comp, verts[x]));
    } else {
        let (j, k) = choose|j: int, k: int| 0 <= j < front.len() && 0 <= k < 3 && #[trigger] front[j][k] == v;
        assert(is_cavity_vertex(slab, comp, front[j][k]));
    }
}

/// The keys whose side is recorded in `sides` and differs from `excluded`.
pub open spec fn side_kept(sides: Map<usize, Sign>, excluded: Sign) -> spec_fn(usize) -> bool {
    |v: usize| sides.contains_key(v) && sides[v] != excluded
}

/// The vertices of `sides` with the given side excluded, in key order.
fn side_filter(keys: &Vec<usize>, sides: &FxHashMap<usize, Sign>, excluded: Sign) -> (r: Vec<usize>)
    ensures
        r@ == keys@.filter(side_kept(sides@, excluded)),
        forall|x: int| 0 <= x < r@.len() ==> keys@.contains(#[trigger] r@[x]),
{
    let ghost pred = side_kept(sides@, excluded);
    let mut r: Vec<usize> = Vec::new();
    let mut j: usize = 0;
    proof {
        reveal_with_fuel(Seq::filter, 1);
        assert(keys@.subrange(0, 0).filter(pred) =~= Seq::<usize>::empty());
    }
    while j < keys.len()
        invariant
            pred == side_kept(sides@, excluded),
            j <= keys@.len(),
            r@ == keys@.subrange(0, j as int).filter(pred),
            forall|x: int| 0 <= x < r@.len() ==> keys@.contains(#[trigger] r@[x]),
        decreases keys@.len() - j,
    {
        let v = keys[j];
        let keep = match fx_get(sides, &v) {
            Some(s) => s != excluded,
            None => false,
        };
        proof {
            reveal_with_fuel(Seq::filter, 1);
            let next = keys@.subrange(0, j + 1);
            assert(next.drop_last() =~= keys@.subrange(0, j as int));
            assert(next.last() == v);
            assert(keep == pred(v));
        }
        if keep {
            let ghost before = r@;
            r.push(v);
            proof {
                assert forall|x: int| 0 <= x < r@.len() implies keys@.contains(#[trigger] r@[x]) by {
                    if x < before.len() {
                        assert(r@[x] == before[x]);
                    } else {
                        assert(keys@[j as int] == v);
                    }
                }
            }
        }
        j += 1;
    }
    proof {
        assert(keys@.subrange(0, keys@.len() as int) =~= keys@);
    }
    r
}

/// Triangle `f` cannot go to either half of a cavity split by the plane
/// of `side`: it has corners strictly on both sides, or all on the plane.
pub open spec fn splits_badly<Q: Fn(usize) -> Sign>(side: Q, f: [usize; 3]) -> bool {
    let pos = exists|k: int| 0 <= k < 3 && side_by(side, #[trigger] f[k]) == Sign::Positive;
    let neg = exists|k: int| 0 <= k < 3 && side_by(side, #[trigger] f[k]) == Sign::Negative;
    (pos && neg) || (!pos && !neg)
}

/// Some corner of `f` lies strictly above the plane of `side`.
pub open spec fn reaches_above<Q: Fn(usize) -> Sign>(side: Q, f: [usize; 3]) -> bool {
    exists|k: int| 0 <= k < 3 && side_by(side, #[trigger] f[k]) == Sign::Positive
}

/// The cavity boundary faces among the first `q` face slots of `comp`
/// (face `q % 4` of slot `comp[q / 4]`, wound with the cavity positive)
/// that reach above the plane (`upper`) or do not (the lower half).
pub open spec fn half_front<Q: Fn(usize) -> Sign>(slab: TetSlab, comp: Seq<u32>, side: Q, upper: bool, q: int) -> Seq<
    [usize; 3],
>
    decreases q,
{
    if q <= 0 {
        Seq::empty()
    } else {
        let prev = half_front(slab, comp, side, upper, q - 1);
        let s = comp[(q - 1) / 4];
        let fi = (q - 1) % 4;
        let f = oriented_face_of(slab_tet_at(slab.tets@, slab.alive@, s)->0, fi);
        if bounds_cavity(slab, comp, s, fi) && reaches_above(side, f) == upper {
            prev.push(f)
        } else {
            prev
        }
    }
}

/// Whether `v` is kept in a half's apex pool: it is not on the excluded side.
pub open spec fn kept_off<Q: Fn(usize) -> Sign>(side: Q, excluded: Sign) -> spec_fn(usize) -> bool {
    |v: usize| side_by(side, v) != excluded
}

/// `keys` lists the vertices of the cavity `comp`, each once.
pub open spec fn cavity_keys(slab: TetSlab, comp: Seq<u32>, keys: Seq<usize>) -> bool {
    keys.no_duplicates() && keys.to_set() == Set::new(|v: usize| is_cavity_vertex(slab, comp, v))
}

/// Some slot of `comp` holds no real tet.
pub open spec fn some_slot_dead(slab: TetSlab, comp: Seq<u32>) -> bool {
    exists|j: int| 0 <= j < comp.len() && slab_tet_at(slab.tets@, slab.alive@, #[trigger] comp[j]) is None
}

/// Some boundary face of the cavity `comp` splits badly by the plane.
pub open spec fn some_face_splits_badly<Q: Fn(usize) -> Sign>(slab: TetSlab, comp: Seq<u32>, side: Q) -> bool {
    exists|j: int, fi: int|
        0 <= j < comp.len() && 0 <= fi < 4 && slab_tet_at(slab.tets@, slab.alive@, comp[j]) is Some && bounds_cavity(
            slab,
            comp,
            comp[j],
            fi,
        ) && #[trigger] splits_badly(side, oriented_face_of(slab_tet_at(slab.tets@, slab.alive@, comp[j])->0, fi))
}

/// The two wraps of a cavity, with apex pools from the vertex order `keys`:
/// `ms1` wraps the upper half front and closes it, lifting off the facet
/// tiles; `ms2` wraps the lower half front with those tiles and closes it.
pub open spec fn retet_run<
    F: Fn(usize, usize, usize, usize) -> Sign,
    G: Fn(usize, usize, usize, usize, usize) -> Sign,
    H: Fn(usize, usize, usize, usize) -> Sign,
    Q: Fn(usize) -> Sign,
>(
    slab: TetSlab,
    comp: Seq<u32>,
    side: Q,
    o: F,
    ins: G,
    o2: H,
    keys: Seq<usize>,
    ms1: Seq<WrapMove>,
    ms2: Seq<WrapMove>,
) -> bool {
    &&& cavity_keys(slab, comp, keys)
    &&& halves_run(
        o,
        ins,
        o2,
        side,
        half_front(slab, comp, side, true, 4 * (comp.len() as int)),
        half_front(slab, comp, side, false, 4 * (comp.len() as int)),
        keys.filter(kept_off(side, Sign::Negative)),
        keys.filter(kept_off(side, Sign::Positive)),
        ms1,
        ms2,
    )
}

/// `tets` refill the cavity `comp`: they are the tets of the two wraps of
/// a [`retet_run`], upper half first.
#[verifier::opaque]
pub open spec fn retet_built<
    F: Fn(usize, usize, usize, usize) -> Sign,
    G: Fn(usize, usize, usize, usize, usize) -> Sign,
    H: Fn(usize, usize, usize, usize) -> Sign,
    Q: Fn(usize) -> Sign,
>(slab: TetSlab, comp: Seq<u32>, side: Q, o: F, ins: G, o2: H, tets: Seq<[usize; 4]>) -> bool {
    exists|keys: Seq<usize>, ms1: Seq<WrapMove>, ms2: Seq<WrapMove>|
        #[trigger] retet_run(slab, comp, side, o, ins, o2, keys, ms1, ms2) && tets == built(ms1) + built(ms2)
}

/// The wraps of the cavity `comp` fail for some vertex order `keys`: the
/// upper half front is refused, or a run on it gets stuck, or it closes and
/// then the lower front (with the lifted tiles) is refused or a run on it
/// gets stuck.
#[verifier::opaque]
pub open spec fn retet_fails<
    F: Fn(usize, usize, usize, usize) -> Sign,
    G: Fn(usize, usize, usize, usize, usize) -> Sign,
    H: Fn(usize, usize, usize, usize) -> Sign,
    Q: Fn(usize) -> Sign,
>(slab: TetSlab, comp: Seq<u32>, side: Q, o: F, ins: G, o2: H) -> bool {
    exists|keys: Seq<usize>|
        #[trigger] cavity_keys(slab, comp, keys) && halves_stuck(
            o,
            ins,
            o2,
            side,
            half_front(slab, comp, side, true, 4 * (comp.len() as int)),
            half_front(slab, comp, side, false, 4 * (comp.len() as int)),
            keys.filter(kept_off(side, Sign::Negative)),
            keys.filter(kept_off(side, Sign::Positive)),
        )
}

/// Filters by two tests that agree on every element are equal.
proof fn lemma_filter_agree(s: Seq<usize>, p: spec_fn(usize) -> bool, q: spec_fn(usize) -> bool)
    requires
        forall|i: int| 0 <= i < s.len() ==> p(#[trigger] s[i]) == q(s[i]),
    ensures
        s.filter(p) == s.filter(q),
    decreases s.len(),
{
    reveal(Seq::filter);
    if s.len() > 0 {
        let d = s.drop_last();
        assert forall|i: int| 0 <= i < d.len() implies p(#[trigger] d[i]) == q(d[i]) by {
            assert(d[i] == s[i]);
        }
        lemma_filter_agree(d, p, q);
        assert(p(s[s.len() - 1]) == q(s[s.len() - 1]));
    }
}

/// The two wraps of a split cavity: `ms1` wraps the upper front `up` from
/// the pool `v1` and closes it, lifting off the tiles on the plane; `ms2`
/// wraps the lower front `low` with those tiles from the pool `v2` and
/// closes it.
pub open spec fn halves_run<
    F: Fn(usize, usize, usize, usize) -> Sign,
    G: Fn(usize, usize, usize, usize, usize) -> Sign,
    H: Fn(usize, usize, usize, usize) -> Sign,
    Q: Fn(usize) -> Sign,
>(
    o: F,
    ins: G,
    o2: H,
    side: Q,
    up: Seq<[usize; 3]>,
    low: Seq<[usize; 3]>,
    v1: Seq<usize>,
    v2: Seq<usize>,
    ms1: Seq<WrapMove>,
    ms2: Seq<WrapMove>,
) -> bool {
    &&& gw_run(o, ins, o2, side, true, up, v1, ms1)
    &&& front_fold(Map::empty(), up + moves_events(ms1)) == (true, Map::<[usize; 3], [usize; 3]>::empty())
    &&& gw_run(o, ins, o2, side, false, low + lifted(ms1), v2, ms2)
    &&& front_fold(Map::empty(), low + lifted(ms1) + moves_events(ms2)) == (true, Map::<[usize; 3], [usize; 3]>::empty())
}

/// The two wraps of a split cavity fail: the upper front is refused, or a
/// run on it gets stuck, or it closes and then the lower front with the
/// lifted tiles is refused or a run on it gets stuck.
pub open spec fn halves_stuck<
    F: Fn(usize, usize, usize, usize) -> Sign,
    G: Fn(usize, usize, usize, usize, usize) -> Sign,
    H: Fn(usize, usize, usize, usize) -> Sign,
    Q: Fn(usize) -> Sign,
>(o: F, ins: G, o2: H, side: Q, up: Seq<[usize; 3]>, low: Seq<[usize; 3]>, v1: Seq<usize>, v2: Seq<usize>) -> bool {
    ||| !front_fold(Map::empty(), up).0
    ||| exists|ms1: Seq<WrapMove>|
        #[trigger] gw_run(o, ins, o2, side, true, up, v1, ms1) && {
            ||| gw_stuck(o, ins, o2, side, true, up, v1, ms1)
            ||| front_fold(Map::empty(), up + moves_events(ms1)) == (true, Map::<[usize; 3], [usize; 3]>::empty()) && (
            !front_fold(Map::empty(), low + lifted(ms1)).0 || exists|ms2: Seq<WrapMove>|
                #[trigger] gw_run(o, ins, o2, side, false, low + lifted(ms1), v2, ms2) && gw_stuck(
                    o,
                    ins,
                    o2,
                    side,
                    false,
                    low + lifted(ms1),
                    v2,
                    ms2,
                ))
        }
}

/// Wraps the two halves of a split cavity: the upper front `up` from the
/// pool `v1` first, lifting off the triangles on the plane, then the
/// lower front `low` with those tiles from the pool `v2`; returns the new
/// tets of both, upper half first (see [`gift_wrap`]).
fn wrap_halves<
    F: Fn(usize, usize, usize, usize) -> Sign,
    G: Fn(usize, usize, usize, usize, usize) -> Sign,
    H: Fn(usize, usize, usize, usize) -> Sign,
    Q: Fn(usize) -> Sign,
>(up: Vec<[usize; 3]>, low: Vec<[usize; 3]>, v1: &Vec<usize>, v2: &Vec<usize>, o: &F, ins: &G, o2: &H, side: &Q) -> (r: Option<
    Vec<[usize; 4]>,
>)
    requires
        is_orient_oracle(*o),
        is_insphere_oracle(*ins),
        is_orient2_oracle(*o2),
        is_side_oracle(*side),
    ensures
        r matches Some(tets) ==> exists|ms1: Seq<WrapMove>, ms2: Seq<WrapMove>|
            #[trigger] halves_run(*o, *ins, *o2, *side, up@, low@, v1@, v2@, ms1, ms2) && tets@ == built(ms1) + built(ms2),
        r is None ==> halves_stuck(*o, *ins, *o2, *side, up@, low@, v1@, v2@),
        r matches Some(tets) ==> forall|j: int|
            0 <= j < tets@.len() ==> orient_sign(
                *o,
                (#[trigger] tets@[j])[0],
                tets@[j][1],
                tets@[j][2],
                tets@[j][3],
            ) == Sign::Positive && forall|k: int|
                0 <= k < 4 ==> in_pool(up@, v1@, #[trigger] tets@[j][k]) || in_pool(low@, v2@, tets@[j][k]),
        up@.len() == 0 && low@.len() == 0 ==> (r matches Some(tets) && tets@.len() == 0),
{
    let ghost f1 = up@;
    let ghost l0 = low@;
    let mut new_tets: Vec<[usize; 4]> = Vec::new();
    let interface = match gift_wrap(up, v1, true, &mut new_tets, o, ins, o2, side) {
        Some(s) => s,
        None => {
            proof {
                if front_fold(Map::empty(), f1).0 {
                    let ms1 = choose|ms: Seq<WrapMove>|
                        #[trigger] gw_run(*o, *ins, *o2, *side, true, f1, v1@, ms) && gw_stuck(
                            *o,
                            *ins,
                            *o2,
                            *side,
                            true,
                            f1,
                            v1@,
                            ms,
                        );
                    assert(gw_run(*o, *ins, *o2, *side, true, f1, v1@, ms1));
                }
            }
            return None;
        },
    };
    let ghost ms1: Seq<WrapMove> = choose|ms: Seq<WrapMove>|
        #[trigger] gw_run(*o, *ins, *o2, *side, true, f1, v1@, ms) && built(ms) == new_tets@.subrange(0, new_tets@.len() as int)
            && lifted(ms) == interface@ && front_fold(Map::empty(), f1 + moves_events(ms)) == (true, Map::<
            [usize; 3],
            [usize; 3],
        >::empty());
    let ghost upper = new_tets@;
    proof {
        assert(new_tets@.subrange(0, new_tets@.len() as int) =~= new_tets@);
        assert forall|j: int| 0 <= j < upper.len() implies orient_sign(
            *o,
            (#[trigger] upper[j])[0],
            upper[j][1],
            upper[j][2],
            upper[j][3],
        ) == Sign::Positive && forall|k: int| 0 <= k < 4 ==> in_pool(f1, v1@, #[trigger] upper[j][k]) by {
            assert(wrap_tet(*o, f1, v1@, upper[j]));
            assert forall|k: int| 0 <= k < 4 implies in_pool(f1, v1@, #[trigger] upper[j][k]) by {
                if k == 3 {
                    assert(v1@.contains(upper[j][3]));
                } else {
                    assert(tri_in_pool(f1, v1@, [upper[j][0], upper[j][1], upper[j][2]]));
                }
            }
        }
    }
    let mut low_full = low;
    let mut k: usize = 0;
    while k < interface.len()
        invariant
            k <= interface@.len(),
            low_full@ == l0 + interface@.subrange(0, k as int),
        decreases interface@.len() - k,
    {
        let f = interface[k];
        low_full.push(f);
        proof {
            assert(low_full@ =~= l0 + interface@.subrange(0, k + 1));
        }
        k += 1;
    }
    let ghost f2 = low_full@;
    proof {
        assert(interface@.subrange(0, interface@.len() as int) =~= interface@);
        assert(f2 == l0 + lifted(ms1));
    }
    let leftover = match gift_wrap(low_full, v2, false, &mut new_tets, o, ins, o2, side) {
        Some(s) => s,
        None => {
            proof {
                assert(gw_run(*o, *ins, *o2, *side, true, f1, v1@, ms1));
                if front_fold(Map::empty(), f2).0 {
                    let ms2 = choose|ms: Seq<WrapMove>|
                        #[trigger] gw_run(*o, *ins, *o2, *side, false, f2, v2@, ms) && gw_stuck(
                            *o,
                            *ins,
                            *o2,
                            *side,
                            false,
                            f2,
                            v2@,
                            ms,
                        );
                    assert(gw_run(*o, *ins, *o2, *side, false, l0 + lifted(ms1), v2@, ms2));
                }
            }
            return None;
        },
    };
    let ghost ms2: Seq<WrapMove> = choose|ms: Seq<WrapMove>|
        #[trigger] gw_run(*o, *ins, *o2, *side, false, f2, v2@, ms) && built(ms) == new_tets@.subrange(
            upper.len() as int,
            new_tets@.len() as int,
        ) && lifted(ms) == leftover@ && front_fold(Map::empty(), f2 + moves_events(ms)) == (true, Map::<
            [usize; 3],
            [usize; 3],
        >::empty());
    proof {
        assert(new_tets@ =~= built(ms1) + built(ms2)) by {
            assert(new_tets@.subrange(0, upper.len() as int) == upper);
        }
        assert(halves_run(*o, *ins, *o2, *side, f1, l0, v1@, v2@, ms1, ms2));
        assert forall|j: int| 0 <= j < new_tets@.len() implies orient_sign(
            *o,
            (#[trigger] new_tets@[j])[0],
            new_tets@[j][1],
            new_tets@[j][2],
            new_tets@[j][3],
        ) == Sign::Positive && forall|k: int|
            0 <= k < 4 ==> in_pool(f1, v1@, #[trigger] new_tets@[j][k]) || in_pool(l0, v2@, new_tets@[j][k]) by {
            if j < upper.len() {
                assert(new_tets@.subrange(0, upper.len() as int)[j] == upper[j]);
                assert(new_tets@[j] == upper[j]);
                assert(forall|k: int| 0 <= k < 4 ==> in_pool(f1, v1@, #[trigger] upper[j][k]));
            } else {
                let t = new_tets@[j];
                assert(wrap_tet(*o, f2, v2@, t));
                assert forall|k: int| 0 <= k < 4 implies in_pool(f1, v1@, #[trigger] t[k]) || in_pool(l0, v2@, t[k]) by {
                    if k < 3 {
                        let base = [t[0], t[1], t[2]];
                        assert(tri_in_pool(f2, v2@, base));
                        assert(in_pool(f2, v2@, base[k]));
                        assert(base[k] == t[k]);
                        if !v2@.contains(t[k]) {
                            let (a, b) = choose|a: int, b: int| 0 <= a < f2.len() && 0 <= b < 3 && #[trigger] f2[a][b] == t[k];
                            if a < l0.len() {
                                assert(l0[a][b] == t[k]);
                            } else {
                                assert(interface@[a - l0.len()] == f2[a]);
                                assert(tri_in_pool(f1, v1@, interface@[a - l0.len()]));
                                assert(in_pool(f1, v1@, f2[a][b]));
                            }
                        }
                    } else {
                        assert(v2@.contains(t[3]));
                    }
                }
            }
        }
    }
    Some(new_tets)
}

/// Refills one cavity (the face-connected tets in slots `comp` that the
/// facet pierces) with two gift-wrapped halves split by the facet plane:
/// the cavity boundary faces go to the upper or lower front by the exact
/// side (`side`) of their corners, the upper half is wrapped first, and the
/// facet tiles it leaves on the plane join the lower front. Returns the new
/// tets, or `None` when a cavity slot holds no real tet, a boundary face
/// straddles the plane or lies on it, or a wrap fails.
#[verifier::rlimit(100)]
#[verifier::spinoff_prover]
pub fn retet_cavity<
    F: Fn(usize, usize, usize, usize) -> Sign,
    G: Fn(usize, usize, usize, usize, usize) -> Sign,
    H: Fn(usize, usize, usize, usize) -> Sign,
    Q: Fn(usize) -> Sign,
>(slab: &TetSlab, comp: &[u32], side: &Q, o: &F, ins: &G, o2: &H) -> (r: Option<Vec<[usize; 4]>>)
    requires
        slab.wf(),
        is_orient_oracle(*o),
        is_insphere_oracle(*ins),
        is_orient2_oracle(*o2),
        is_side_oracle(*side),
    ensures
        some_slot_dead(*slab, comp@) ==> r is None,
        some_face_splits_badly(*slab, comp@, *side) ==> r is None,
        comp@.len() == 0 ==> (r matches Some(tets) && tets@.len() == 0),
        r matches Some(tets) ==> retet_built(*slab, comp@, *side, *o, *ins, *o2, tets@),
        r is None ==> some_slot_dead(*slab, comp@) || some_face_splits_badly(*slab, comp@, *side) || retet_fails(
            *slab,
            comp@,
            *side,
            *o,
            *ins,
            *o2,
        ),
        r matches Some(tets) ==> forall|j: int|
            0 <= j < tets@.len() ==> orient_sign(
                *o,
                (#[trigger] tets@[j])[0],
                tets@[j][1],
                tets@[j][2],
                tets@[j][3],
            ) == Sign::Positive && forall|k: int| 0 <= k < 4 ==> is_cavity_vertex(*slab, comp@, #[trigger] tets@[j][k]),
{
    let ghost cm = comp@;
    let mut comp_set: FxHashSet<u32> = fx_set_empty();
    let mut i: usize = 0;
    while i < comp.len()
        invariant
            i <= comp@.len(),
            forall|x: u32| #[trigger] comp_set@.contains(x) <==> exists|j: int| 0 <= j < i && comp@[j] == x,
        decreases comp@.len() - i,
    {
        fx_set_insert(&mut comp_set, comp[i]);
        i += 1;
    }
    // Vertices and their exact plane sides.
    let mut sides: FxHashMap<usize, Sign> = fx_empty();
    let mut i: usize = 0;
    while i < comp.len()
        invariant
            slab.wf(),
            is_side_oracle(*side),
            cm == comp@,
            i <= comp@.len(),
            forall|j: int| 0 <= j < i ==> slab_tet_at(slab.tets@, slab.alive@, #[trigger] comp@[j]) is Some,
            forall|j: int, k: int|
                0 <= j < i && 0 <= k < 4 ==> sides@.contains_key(
                    #[trigger] slab_tet_at(slab.tets@, slab.alive@, comp@[j])->0[k],
                ),
            forall|v: usize|
                #[trigger] sides@.contains_key(v) ==> sides@[v] == side_by(*side, v) && is_cavity_vertex(*slab, cm, v),
        decreases comp@.len() - i,
    {
        let t = match slab.tet_at(comp[i]) {
            Some(t) => t,
            None => {
                proof {
                    assert(slab_tet_at(slab.tets@, slab.alive@, comp@[i as int]) is None);
                }
                return None;
            },
        };
        let mut k: usize = 0;
        while k < 4
            invariant
                slab.wf(),
                is_side_oracle(*side),
                cm == comp@,
                i < comp@.len(),
                k <= 4,
                slab_tet_at(slab.tets@, slab.alive@, comp@[i as int]) == Some(t),
                forall|j: int, k2: int|
                    0 <= j < i && 0 <= k2 < 4 ==> sides@.contains_key(
                        #[trigger] slab_tet_at(slab.tets@, slab.alive@, comp@[j])->0[k2],
                    ),
                forall|k2: int| 0 <= k2 < k ==> sides@.contains_key(#[trigger] t[k2]),
                forall|v: usize|
                    #[trigger] sides@.contains_key(v) ==> sides@[v] == side_by(*side, v) && is_cavity_vertex(*slab, cm, v),
            decreases 4 - k,
        {
            let v = t[k];
            if fx_get(&sides, &v).is_none() {
                let sv = side_of(side, v);
                proof {
                    assert(slab_tet_at(slab.tets@, slab.alive@, cm[i as int])->0[k as int] == v);
                    assert(is_cavity_vertex(*slab, cm, v));
                }
                fx_insert(&mut sides, v, sv);
            }
            k += 1;
        }
        i += 1;
    }
    proof {
        assert forall|x: u32| #[trigger] comp_set@.contains(x) <==> cm.contains(x) by {
            if comp_set@.contains(x) {
                let j = choose|j: int| 0 <= j < comp@.len() && comp@[j] == x;
                assert(cm[j] == x);
            }
        }
    }
    // Oriented boundary faces, wound with the cavity interior positive.
    let mut front1: Vec<[usize; 3]> = Vec::new();
    let mut front2: Vec<[usize; 3]> = Vec::new();
    let mut i: usize = 0;
    while i < comp.len()
        invariant
            slab.wf(),
            cm == comp@,
            i <= comp@.len(),
            forall|j: int| 0 <= j < comp@.len() ==> slab_tet_at(slab.tets@, slab.alive@, #[trigger] comp@[j]) is Some,
            forall|j: int, k: int|
                0 <= j < comp@.len() && 0 <= k < 4 ==> sides@.contains_key(
                    #[trigger] slab_tet_at(slab.tets@, slab.alive@, comp@[j])->0[k],
                ),
            forall|v: usize|
                #[trigger] sides@.contains_key(v) ==> sides@[v] == side_by(*side, v) && is_cavity_vertex(*slab, cm, v),
            forall|j: int, k: int|
                0 <= j < front1@.len() && 0 <= k < 3 ==> is_cavity_vertex(*slab, cm, #[trigger] front1@[j][k]),
            forall|j: int, k: int|
                0 <= j < front2@.len() && 0 <= k < 3 ==> is_cavity_vertex(*slab, cm, #[trigger] front2@[j][k]),
            cm.len() == 0 ==> front1@.len() == 0 && front2@.len() == 0,
            is_side_oracle(*side),
            forall|x: u32| #[trigger] comp_set@.contains(x) <==> cm.contains(x),
            forall|j: int, fi2: int|
                0 <= j < i && 0 <= fi2 < 4 && bounds_cavity(*slab, cm, cm[j], fi2) ==> !#[trigger] splits_badly(
                    *side,
                    oriented_face_of(slab_tet_at(slab.tets@, slab.alive@, cm[j])->0, fi2),
                ),
            front1@ == half_front(*slab, cm, *side, true, 4 * (i as int)),
            front2@ == half_front(*slab, cm, *side, false, 4 * (i as int)),
        decreases comp@.len() - i,
    {
        let s = comp[i];
        let t = match slab.tet_at(s) {
            Some(t) => t,
            None => {
                proof {
                    assert(slab_tet_at(slab.tets@, slab.alive@, comp@[i as int]) is None);
                }
                return None;
            },
        };
        let mut fi: usize = 0;
        while fi < 4
            invariant
                slab.wf(),
                cm == comp@,
                i < comp@.len(),
                s == comp@[i as int],
                s < slab.tets@.len(),
                fi <= 4,
                slab_tet_at(slab.tets@, slab.alive@, s) == Some(t),
                forall|k: int| 0 <= k < 4 ==> sides@.contains_key(#[trigger] t[k]),
                forall|v: usize|
                    #[trigger] sides@.contains_key(v) ==> sides@[v] == side_by(*side, v) && is_cavity_vertex(*slab, cm, v),
                forall|j: int, k: int|
                    0 <= j < front1@.len() && 0 <= k < 3 ==> is_cavity_vertex(*slab, cm, #[trigger] front1@[j][k]),
                forall|j: int, k: int|
                    0 <= j < front2@.len() && 0 <= k < 3 ==> is_cavity_vertex(*slab, cm, #[trigger] front2@[j][k]),
                is_side_oracle(*side),
                forall|x: u32| #[trigger] comp_set@.contains(x) <==> cm.contains(x),
                forall|j: int, fi2: int|
                    0 <= j < i && 0 <= fi2 < 4 && bounds_cavity(*slab, cm, cm[j], fi2) ==> !#[trigger] splits_badly(
                        *side,
                        oriented_face_of(slab_tet_at(slab.tets@, slab.alive@, cm[j])->0, fi2),
                    ),
                forall|fi2: int|
                    0 <= fi2 < fi && bounds_cavity(*slab, cm, s, fi2) ==> !#[trigger] splits_badly(
                        *side,
                        oriented_face_of(t, fi2),
                    ),
                front1@ == half_front(*slab, cm, *side, true, 4 * (i as int) + (fi as int)),
                front2@ == half_front(*slab, cm, *side, false, 4 * (i as int) + (fi as int)),
            decreases 4 - fi,
        {
            let interior = match slab.neighbor_at(s, fi) {
                Some(nb) => fx_set_contains(&comp_set, &nb),
                None => false,
            };
            let ghost q: int = 4 * (i as int) + (fi as int);
            proof {
                assert((q + 1 - 1) / 4 == i as int && (q + 1 - 1) % 4 == fi as int) by (nonlinear_arith)
                    requires
                        q == 4 * i + fi,
                        fi < 4,
                ;
                assert(interior == !bounds_cavity(*slab, cm, s, fi as int));
                assert(cm[(q + 1 - 1) / 4] == s);
            }
            if !interior {
                let f = oriented_face(t, fi);
                proof {
                    let slot = face_slots(if fi < 3 { fi as int } else { 3 });
                    assert forall|k: int| 0 <= k < 3 implies sides@.contains_key(#[trigger] f[k]) by {
                        assert(f[k] == t[slot[k]]);
                    }
                }
                let mut has_pos = false;
                let mut has_neg = false;
                let mut k: usize = 0;
                while k < 3
                    invariant
                        k <= 3,
                        forall|k2: int| 0 <= k2 < 3 ==> sides@.contains_key(#[trigger] f[k2]),
                        forall|v: usize| #[trigger] sides@.contains_key(v) ==> sides@[v] == side_by(*side, v),
                        has_pos <==> exists|k2: int| 0 <= k2 < k && side_by(*side, #[trigger] f[k2]) == Sign::Positive,
                        has_neg <==> exists|k2: int| 0 <= k2 < k && side_by(*side, #[trigger] f[k2]) == Sign::Negative,
                    decreases 3 - k,
                {
                    match fx_get(&sides, &f[k]) {
                        Some(Sign::Positive) => {
                            has_pos = true;
                        },
                        Some(Sign::Negative) => {
                            has_neg = true;
                        },
                        _ => {},
                    }
                    k += 1;
                }
                proof {
                    assert(f == oriented_face_of(slab_tet_at(slab.tets@, slab.alive@, cm[i as int])->0, fi as int));
                    assert(has_pos == reaches_above(*side, f));
                }
                if has_pos && has_neg {
                    proof {
                        assert(splits_badly(*side, f));
                        assert(some_face_splits_badly(*slab, cm, *side));
                    }
                    return None;
                }
                if !has_pos && !has_neg {
                    proof {
                        assert(splits_badly(*side, f));
                        assert(some_face_splits_badly(*slab, cm, *side));
                    }
                    return None;
                }
                proof {
                    assert forall|k: int| 0 <= k < 3 implies is_cavity_vertex(*slab, cm, #[trigger] f[k]) by {
                        assert(sides@.contains_key(f[k]));
                    }
                }
                proof {
                    assert(half_front(*slab, cm, *side, true, q + 1) == if has_pos {
                        half_front(*slab, cm, *side, true, q).push(f)
                    } else {
                        half_front(*slab, cm, *side, true, q)
                    });
                    assert(half_front(*slab, cm, *side, false, q + 1) == if !has_pos {
                        half_front(*slab, cm, *side, false, q).push(f)
                    } else {
                        half_front(*slab, cm, *side, false, q)
                    });
                }
                if has_pos {
                    let ghost before = front1@;
                    front1.push(f);
                    proof {
                        assert forall|j: int, k: int|
                            0 <= j < front1@.len() && 0 <= k < 3 implies is_cavity_vertex(*slab, cm, #[trigger] front1@[j][k]) by {
                            if j < before.len() {
                                assert(front1@[j] == before[j]);
                            }
                        }
                    }
                } else {
                    let ghost before = front2@;
                    front2.push(f);
                    proof {
                        assert forall|j: int, k: int|
                            0 <= j < front2@.len() && 0 <= k < 3 implies is_cavity_vertex(*slab, cm, #[trigger] front2@[j][k]) by {
                            if j < before.len() {
                                assert(front2@[j] == before[j]);
                            }
                        }
                    }
                }
            }
            proof {
                if interior {
                    assert(half_front(*slab, cm, *side, true, q + 1) == half_front(*slab, cm, *side, true, q));
                    assert(half_front(*slab, cm, *side, false, q + 1) == half_front(*slab, cm, *side, false, q));
                }
            }
            fi += 1;
        }
        proof {
            assert(forall|k: int| 0 <= k < 4 ==> sides@.contains_key(#[trigger] t[k]));
            assert forall|j: int, fi2: int|
                0 <= j < i + 1 && 0 <= fi2 < 4 && bounds_cavity(*slab, cm, cm[j], fi2) implies !#[trigger] splits_badly(
                    *side,
                    oriented_face_of(slab_tet_at(slab.tets@, slab.alive@, cm[j])->0, fi2),
                ) by {
                if j == i {
                    assert(cm[j] == s);
                }
            }
        }
        i += 1;
    }
    let keys = fx_keys(&sides);
    let v1 = side_filter(&keys, &sides, Sign::Negative);
    let v2 = side_filter(&keys, &sides, Sign::Positive);
    proof {
        assert forall|x: int| 0 <= x < v1@.len() implies is_cavity_vertex(*slab, cm, #[trigger] v1@[x]) by {
            assert(keys@.contains(v1@[x]));
            assert(keys@.to_set().contains(v1@[x]));
            assert(sides@.contains_key(v1@[x]));
        }
        assert forall|x: int| 0 <= x < v2@.len() implies is_cavity_vertex(*slab, cm, #[trigger] v2@[x]) by {
            assert(keys@.contains(v2@[x]));
            assert(keys@.to_set().contains(v2@[x]));
            assert(sides@.contains_key(v2@[x]));
        }
        assert(keys@.to_set() =~= Set::new(|v: usize| is_cavity_vertex(*slab, cm, v))) by {
            assert forall|v: usize| is_cavity_vertex(*slab, cm, v) implies #[trigger] keys@.to_set().contains(v) by {
                let (j, k) = choose|j: int, k: int|
                    0 <= j < cm.len() && 0 <= k < 4 && slab_tet_at(slab.tets@, slab.alive@, cm[j]) is Some
                        && #[trigger] slab_tet_at(slab.tets@, slab.alive@, cm[j])->0[k] == v;
                assert(sides@.contains_key(slab_tet_at(slab.tets@, slab.alive@, comp@[j])->0[k]));
            }
        }
        assert(cavity_keys(*slab, cm, keys@));
        assert forall|x: int| 0 <= x < keys@.len() implies side_kept(sides@, Sign::Negative)(#[trigger] keys@[x])
            == kept_off(*side, Sign::Negative)(keys@[x]) && side_kept(sides@, Sign::Positive)(keys@[x]) == kept_off(
            *side,
            Sign::Positive,
        )(keys@[x]) by {
            assert(keys@.to_set().contains(keys@[x]));
            assert(sides@.contains_key(keys@[x]));
        }
        lemma_filter_agree(keys@, side_kept(sides@, Sign::Negative), kept_off(*side, Sign::Negative));
        lemma_filter_agree(keys@, side_kept(sides@, Sign::Positive), kept_off(*side, Sign::Positive));
    }
    let ghost up = half_front(*slab, cm, *side, true, 4 * (cm.len() as int));
    let ghost low = half_front(*slab, cm, *side, false, 4 * (cm.len() as int));
    proof {
        assert(front1@ == up);
        assert(front2@ == low);
    }
    // Wrap the upper half; its on-plane tiles join the lower front.
    let r = wrap_halves(front1, front2, &v1, &v2, o, ins, o2, side);
    match r {
        None => {
            assert(retet_fails(*slab, cm, *side, *o, *ins, *o2)) by {
                reveal(retet_fails);
                assert(cavity_keys(*slab, cm, keys@));
            }
            None
        },
        Some(new_tets) => {
            assert(retet_built(*slab, cm, *side, *o, *ins, *o2, new_tets@)) by {
                reveal(retet_built);
                let (ms1, ms2) = choose|ms1: Seq<WrapMove>, ms2: Seq<WrapMove>|
                    #[trigger] halves_run(*o, *ins, *o2, *side, up, low, v1@, v2@, ms1, ms2) && new_tets@ == built(ms1)
                        + built(ms2);
                assert(retet_run(*slab, cm, *side, *o, *ins, *o2, keys@, ms1, ms2));
            }
            proof {
                assert forall|j: int| 0 <= j < new_tets@.len() implies orient_sign(
                    *o,
                    (#[trigger] new_tets@[j])[0],
                    new_tets@[j][1],
                    new_tets@[j][2],
                    new_tets@[j][3],
                ) == Sign::Positive && forall|k: int| 0 <= k < 4 ==> is_cavity_vertex(*slab, cm, #[trigger] new_tets@[j][k]) by {
                    assert forall|k: int| 0 <= k < 4 implies is_cavity_vertex(*slab, cm, #[trigger] new_tets@[j][k]) by {
                        if in_pool(up, v1@, new_tets@[j][k]) {
                            lemma_pool_in_cavity(*slab, cm, up, v1@, new_tets@[j][k]);
                        } else {
                            lemma_pool_in_cavity(*slab, cm, low, v2@, new_tets@[j][k]);
                        }
                    }
                }
            }
            Some(new_tets)
        },
    }
}


/// `s` with its sense reversed.
pub open spec fn flipped(s: Sign) -> Sign {
    match s {
        Sign::Negative => Sign::Positive,
        Sign::Zero => Sign::Zero,
        Sign::Positive => Sign::Negative,
    }
}

fn flip(s: Sign) -> (r: Sign)
    ensures
        r == flipped(s),
{
    match s {
        Sign::Negative => Sign::Positive,
        Sign::Zero => Sign::Zero,
        Sign::Positive => Sign::Negative,
    }
}

/// The order of vertex indices.
pub open spec fn index_le() -> spec_fn(usize, usize) -> bool {
    |a: usize, b: usize| a <= b
}

/// `1` if the entries `i < j` of `s` are out of order.
pub open spec fn inverted(s: Seq<usize>, i: int, j: int) -> int {
    if s[i] > s[j] {
        1
    } else {
        0
    }
}

/// Number of out-of-order pairs of a five-entry sequence.
pub open spec fn inversions5(s: Seq<usize>) -> int {
    inverted(s, 0, 1) + inverted(s, 0, 2) + inverted(s, 0, 3) + inverted(s, 0, 4) + inverted(s, 1, 2) + inverted(
        s,
        1,
        3,
    ) + inverted(s, 1, 4) + inverted(s, 2, 3) + inverted(s, 2, 4) + inverted(s, 3, 4)
}

/// The in-sphere test with symbolic perturbation: the exact sign when it is
/// not zero; for a cospherical point, the tie is broken by the global
/// vertex order. With `s` the five vertex indices in ascending order and
/// the parity of the permutation that sorts `(t, q)`, the sign of the
/// orientation of `s[1..5]`, else the reversed sign of the orientation of
/// `s[0], s[2], s[3], s[4]` (each flipped for an odd permutation); `None`
/// when both are zero too (a fully degenerate configuration).
pub open spec fn perturbed_sign<G: Fn(usize, usize, usize, usize, usize) -> Sign, F: Fn(usize, usize, usize, usize) -> Sign>(
    ins: G,
    o: F,
    t: [usize; 4],
    q: usize,
) -> Option<Sign> {
    let r = insphere_sign(ins, t[0], t[1], t[2], t[3], q);
    if r != Sign::Zero {
        Some(r)
    } else {
        let a = seq![t[0], t[1], t[2], t[3], q];
        let s = a.sort_by(index_le());
        let even = inversions5(a) % 2 == 0;
        let r1 = orient_sign(o, s[1], s[2], s[3], s[4]);
        let r1 = if even {
            r1
        } else {
            flipped(r1)
        };
        if r1 != Sign::Zero {
            Some(r1)
        } else {
            let r2 = orient_sign(o, s[0], s[2], s[3], s[4]);
            let r2 = if even {
                flipped(r2)
            } else {
                r2
            };
            if r2 != Sign::Zero {
                Some(r2)
            } else {
                None
            }
        }
    }
}

/// Swapping an out-of-order adjacent pair removes exactly one inversion.
proof fn lemma_swap_inversion(s: Seq<usize>, j: int)
    requires
        s.len() == 5,
        0 <= j < 4,
        s[j] > s[j + 1],
    ensures
        inversions5(s.update(j, s[j + 1]).update(j + 1, s[j])) == inversions5(s) - 1,
{
    let s2 = s.update(j, s[j + 1]).update(j + 1, s[j]);
    assert(j == 0 || j == 1 || j == 2 || j == 3);
}

/// The in-sphere test of `q` against the positively oriented tet `t` under
/// symbolic perturbation (see [`perturbed_sign`]): `Positive` when `q` is
/// (perturbed-)inside; `None` for a fully degenerate configuration.
pub fn perturbed_insphere<G: Fn(usize, usize, usize, usize, usize) -> Sign, F: Fn(usize, usize, usize, usize) -> Sign>(
    ins: &G,
    o: &F,
    t: [usize; 4],
    q: usize,
) -> (r: Option<Sign>)
    requires
        is_insphere_oracle(*ins),
        is_orient_oracle(*o),
    ensures
        r == perturbed_sign(*ins, *o, t, q),
{
    broadcast use vstd::seq_lib::group_to_multiset_ensures, vstd::multiset::group_multiset_axioms;

    let r = insphere_of(ins, t[0], t[1], t[2], t[3], q);
    if r != Sign::Zero {
        return Some(r);
    }
    let mut idx: Vec<usize> = Vec::new();
    idx.push(t[0]);
    idx.push(t[1]);
    idx.push(t[2]);
    idx.push(t[3]);
    idx.push(q);
    let ghost a = seq![t[0], t[1], t[2], t[3], q];
    proof {
        assert(idx@ =~= a);
    }
    let mut swaps: usize = 0;
    let mut i: usize = 0;
    while i < 4
        invariant
            i <= 4,
            idx@.len() == 5,
            idx@.to_multiset() == a.to_multiset(),
            swaps + inversions5(idx@) == inversions5(a),
            forall|k: int, m: int| 5 - i <= k < m < 5 ==> idx@[k] <= idx@[m],
            forall|k: int, m: int| 0 <= k < 5 - i <= m < 5 ==> idx@[k] <= idx@[m],
        decreases 4 - i,
    {
        let mut j: usize = 0;
        while j < 4 - i
            invariant
                i < 4,
                j <= 4 - i,
                idx@.len() == 5,
                idx@.to_multiset() == a.to_multiset(),
                swaps + inversions5(idx@) == inversions5(a),
                forall|k: int, m: int| 5 - i <= k < m < 5 ==> idx@[k] <= idx@[m],
                forall|k: int, m: int| 0 <= k < 5 - i <= m < 5 ==> idx@[k] <= idx@[m],
                forall|k: int| 0 <= k < j ==> idx@[k] <= idx@[j as int],
            decreases 4 - i - j,
        {
            if idx[j] > idx[j + 1] {
                let x = idx[j];
                let y = idx[j + 1];
                let ghost before = idx@;
                proof {
                    lemma_swap_inversion(before, j as int);
                    assert(inversions5(before) <= 10);
                }
                idx.set(j, y);
                idx.set(j + 1, x);
                proof {
                    let m1 = before.update(j as int, y);
                    assert(idx@ == m1.update(j + 1, x));
                    vstd::seq_lib::to_multiset_update(before, j as int, y);
                    vstd::seq_lib::to_multiset_update(m1, j + 1, x);
                    assert(m1[j + 1] == y);
                    assert(before[j as int] == x);
                    assert(before.contains(x));
                    before.to_multiset_ensures();
                    assert(before.to_multiset().count(x) > 0);
                    assert(before.to_multiset().insert(y).remove(x).insert(x).remove(y) =~= before.to_multiset());
                    assert(idx@.to_multiset() =~= before.to_multiset());
                }
                swaps += 1;
            }
            j += 1;
        }
        i += 1;
    }
    proof {
        let le = index_le();
        assert(vstd::relations::total_ordering(le));
        assert(vstd::relations::sorted_by(idx@, le));
        a.lemma_sort_by_ensures(le);
        vstd::seq_lib::lemma_sorted_unique(idx@, a.sort_by(le), le);
    }
    let even = swaps % 2 == 0;
    let r1 = orient_of(o, idx[1], idx[2], idx[3], idx[4]);
    let r1 = if even {
        r1
    } else {
        flip(r1)
    };
    if r1 != Sign::Zero {
        return Some(r1);
    }
    let r2 = orient_of(o, idx[0], idx[2], idx[3], idx[4]);
    let r2 = if even {
        flip(r2)
    } else {
        r2
    };
    if r2 != Sign::Zero {
        Some(r2)
    } else {
        None
    }
}

} // verus!
