//! Bookkeeping of constrained facet recovery: the gift-wrapping front of
//! oriented triangles and the surface walls a cavity must keep.
use crate::delaunay::{slab_neighbor_at, slab_tet_at, tet_pair, TetSlab};
use crate::facets::{star_slots, star_slots_upto};
use crate::fxmap::{
    fx_any_entry, fx_empty, fx_get, fx_insert, fx_remove, fx_set_contains, fx_set_empty, fx_set_insert, fx_set_items,
};
use crate::topology::{
    face_key, face_slots, is_reversed, lemma_reversal_laws, oriented_face, oriented_face_of, reversal, same_cycle, sorted3,
};
use rustc_hash::{FxHashMap, FxHashSet};
use vstd::prelude::*;

verus! {

/// Every front entry is keyed by the sorted vertices of its triangle.
pub open spec fn front_keyed(front: Map<[usize; 3], [usize; 3]>) -> bool {
    forall|k: [usize; 3]| #[trigger] front.contains_key(k) ==> k == face_key(front[k])
}

/// The front after offering triangle `f`, and whether the offer was valid:
/// a triangle whose key is absent is added; one that meets its opposite
/// orientation cancels it; one already there with the same orientation is
/// refused and leaves the front unchanged.
pub open spec fn front_after(front: Map<[usize; 3], [usize; 3]>, f: [usize; 3]) -> (bool, Map<
    [usize; 3],
    [usize; 3],
>) {
    let k = face_key(f);
    if !front.contains_key(k) {
        (true, front.insert(k, f))
    } else if same_cycle(reversal(f), front[k]) {
        (true, front.remove(k))
    } else {
        (false, front)
    }
}

/// The front after offering the triangles of `faces` one by one to
/// `start` (see [`front_after`]), and whether every offer was accepted;
/// the front stays as it was at the first refusal.
#[verifier::opaque]
pub open spec fn front_fold(start: Map<[usize; 3], [usize; 3]>, faces: Seq<[usize; 3]>) -> (bool, Map<
    [usize; 3],
    [usize; 3],
>)
    decreases faces.len(),
{
    if faces.len() == 0 {
        (true, start)
    } else {
        let prev = front_fold(start, faces.drop_last());
        if !prev.0 {
            prev
        } else {
            front_after(prev.1, faces.last())
        }
    }
}

/// A refusal among the first `i` offers is a refusal of the whole fold.
pub proof fn lemma_fold_refusal_sticks(start: Map<[usize; 3], [usize; 3]>, faces: Seq<[usize; 3]>, i: int)
    requires
        0 <= i <= faces.len(),
        !front_fold(start, faces.subrange(0, i)).0,
    ensures
        !front_fold(start, faces).0,
    decreases faces.len() - i,
{
    reveal(front_fold);
    if i < faces.len() {
        assert(faces.subrange(0, i + 1).drop_last() =~= faces.subrange(0, i));
        lemma_fold_refusal_sticks(start, faces, i + 1);
    } else {
        assert(faces.subrange(0, i) =~= faces);
    }
}

/// Face `fi` of the tet in slot `s` bounds the cavity `comp`: no tet lies
/// across it, or the one across is not in the cavity.
pub open spec fn bounds_cavity(slab: TetSlab, comp: Seq<u32>, s: u32, fi: int) -> bool {
    match slab_neighbor_at(slab.neighbors@, s, fi) {
        Some(nb) => !comp.contains(nb),
        None => true,
    }
}

/// The cavity boundary faces among the first `q` face slots of `rm` (face
/// `q % 4` of slot `rm[q / 4]`, in that order), each wound with the
/// cavity on its positive side.
pub open spec fn cavity_face_seq(slab: TetSlab, rm: Seq<u32>, q: int) -> Seq<[usize; 3]>
    decreases q,
{
    if q <= 0 {
        Seq::empty()
    } else {
        let prev = cavity_face_seq(slab, rm, q - 1);
        let s = rm[(q - 1) / 4];
        let fi = (q - 1) % 4;
        if bounds_cavity(slab, rm, s, fi) {
            prev.push(oriented_face_of(slab_tet_at(slab.tets@, slab.alive@, s)->0, fi))
        } else {
            prev
        }
    }
}

/// A refusal while offering the first `q` boundary faces is a refusal of
/// the whole cavity boundary.
pub proof fn lemma_face_seq_refusal_sticks(slab: TetSlab, rm: Seq<u32>, q: int, m: int)
    requires
        0 <= q <= m,
        !front_fold(Map::empty(), cavity_face_seq(slab, rm, q)).0,
    ensures
        !front_fold(Map::empty(), cavity_face_seq(slab, rm, m)).0,
    decreases m - q,
{
    if q < m {
        lemma_face_seq_refusal_sticks(slab, rm, q, m - 1);
        let prev = cavity_face_seq(slab, rm, m - 1);
        let s = rm[(m - 1) / 4];
        let fi = (m - 1) % 4;
        if bounds_cavity(slab, rm, s, fi) {
            reveal(front_fold);
            assert(cavity_face_seq(slab, rm, m).drop_last() =~= prev);
        }
    }
}

/// The front changes of wrapping tet `t` over front triangle
/// `(t[0], t[1], t[2])`: the base consumed (its reversal offered), then the
/// three side faces offered, wound with the unfilled side positive.
pub open spec fn tet_events(t: [usize; 4]) -> Seq<[usize; 3]> {
    seq![reversal([t[0], t[1], t[2]]), [t[0], t[1], t[3]], [t[0], t[3], t[2]], [t[3], t[1], t[2]]]
}

/// The front changes of wrapping `tets` in order.
pub open spec fn wrap_events(tets: Seq<[usize; 4]>) -> Seq<[usize; 3]>
    decreases tets.len(),
{
    if tets.len() == 0 {
        Seq::empty()
    } else {
        wrap_events(tets.drop_last()) + tet_events(tets.last())
    }
}

/// Offering one more triangle after an accepted fold is one more step.
pub proof fn lemma_fold_push(start: Map<[usize; 3], [usize; 3]>, faces: Seq<[usize; 3]>, x: [usize; 3])
    requires
        front_fold(start, faces).0,
    ensures
        front_fold(start, faces.push(x)) == front_after(front_fold(start, faces).1, x),
{
    reveal(front_fold);
    assert(faces.push(x).drop_last() =~= faces);
}

/// Consuming an active front triangle is offering its reversal.
pub proof fn lemma_consume_is_reversal(front: Map<[usize; 3], [usize; 3]>, f: [usize; 3])
    requires
        front.contains_key(face_key(f)),
        front[face_key(f)] == f,
    ensures
        front_after(front, reversal(f)) == (true, front.remove(face_key(f))),
{
    assert(face_key(reversal(f)) =~= face_key(f));
    lemma_reversal_laws(f, f, f);
}

/// Symmetric difference of an oriented triangle with the gift-wrapping
/// front (see [`front_after`]).
pub fn front_xor(front: &mut FxHashMap<[usize; 3], [usize; 3]>, f: [usize; 3]) -> (ok: bool)
    ensures
        (ok, final(front)@) == front_after(old(front)@, f),
{
    let k = sorted3(f);
    match fx_get(front, &k) {
        Some(g) => {
            if is_reversed(f, g) {
                fx_remove(front, &k);
                true
            } else {
                false
            }
        },
        None => {
            fx_insert(front, k, f);
            true
        },
    }
}

/// The key of a triangle does not depend on its orientation or rotation.
pub proof fn lemma_face_key_orientation_free(f: [usize; 3], g: [usize; 3])
    requires
        same_cycle(f, g) || same_cycle(reversal(f), g),
    ensures
        face_key(f) == face_key(g),
{
}

/// Offering keeps every front entry keyed by its own triangle.
pub proof fn lemma_front_stays_keyed(front: Map<[usize; 3], [usize; 3]>, f: [usize; 3])
    requires
        front_keyed(front),
    ensures
        front_keyed(front_after(front, f).1),
{
}

/// A triangle and its opposite orientation cancel: offering `f` and then a
/// reversal of it restores the front, and both offers are valid.
pub proof fn lemma_front_cancels(front: Map<[usize; 3], [usize; 3]>, f: [usize; 3], g: [usize; 3])
    requires
        !front.contains_key(face_key(f)),
        same_cycle(reversal(f), g),
    ensures
        front_after(front, f).0,
        front_after(front_after(front, f).1, g).0,
        front_after(front_after(front, f).1, g).1 == front,
{
    lemma_face_key_orientation_free(f, g);
    let m1 = front_after(front, f).1;
    assert(m1[face_key(f)] == f);
    assert(same_cycle(reversal(g), f));
    assert(m1.remove(face_key(g)) =~= front);
}

/// Offering the same oriented triangle twice is refused the second time
/// and leaves the front as the first offer made it.
pub proof fn lemma_front_refuses_repeat(front: Map<[usize; 3], [usize; 3]>, f: [usize; 3])
    requires
        !front.contains_key(face_key(f)),
        f[0] != f[1] && f[1] != f[2] && f[0] != f[2],
    ensures
        !front_after(front_after(front, f).1, f).0,
        front_after(front_after(front, f).1, f).1 == front_after(front, f).1,
{
}

/// Surface facets whose three vertices all lie in the cavity vertex set:
/// the walls the cavity retetrahedralization must keep.
pub fn contained_walls(verts: &FxHashSet<usize>, facets: &[[usize; 3]]) -> (r: Vec<[usize; 3]>)
    ensures
        r@ == facets@.filter(|f: [usize; 3]| verts@.contains(f[0]) && verts@.contains(f[1]) && verts@.contains(f[2])),
{
    let ghost p = |f: [usize; 3]| verts@.contains(f[0]) && verts@.contains(f[1]) && verts@.contains(f[2]);
    let mut out: Vec<[usize; 3]> = Vec::new();
    let mut i: usize = 0;
    while i < facets.len()
        invariant
            i <= facets@.len(),
            p == (|f: [usize; 3]| verts@.contains(f[0]) && verts@.contains(f[1]) && verts@.contains(f[2])),
            out@ == facets@.take(i as int).filter(p),
        decreases facets@.len() - i,
    {
        let f = facets[i];
        proof {
            facets@.take(i as int).lemma_filter_push(f, p);
            assert(facets@.take(i as int).push(f) =~= facets@.take(i + 1));
        }
        if fx_set_contains(verts, &f[0]) && fx_set_contains(verts, &f[1]) && fx_set_contains(verts, &f[2]) {
            out.push(f);
        }
        i += 1;
    }
    proof {
        assert(facets@.take(facets@.len() as int) =~= facets@);
    }
    out
}

/// Sign of an exact orientation or in-sphere determinant.
#[derive(Clone, Copy, Debug, PartialEq, Eq, Structural)]
pub enum Sign {
    Negative,
    Zero,
    Positive,
}

/// The sign orientation oracle `o` gives for `(a, b, c, d)`.
pub open spec fn orient_sign<F: Fn(usize, usize, usize, usize) -> Sign>(
    o: F,
    a: usize,
    b: usize,
    c: usize,
    d: usize,
) -> Sign {
    choose|s: Sign| call_ensures(o, (a, b, c, d), s)
}

/// The sign in-sphere oracle `ins` gives for `(a, b, c, d, e)`.
pub open spec fn insphere_sign<G: Fn(usize, usize, usize, usize, usize) -> Sign>(
    ins: G,
    a: usize,
    b: usize,
    c: usize,
    d: usize,
    e: usize,
) -> Sign {
    choose|s: Sign| call_ensures(ins, (a, b, c, d, e), s)
}

/// `o` answers every vertex quadruple, and always with the same sign: an
/// exact predicate over fixed positions.
pub open spec fn is_orient_oracle<F: Fn(usize, usize, usize, usize) -> Sign>(o: F) -> bool {
    &&& forall|a: usize, b: usize, c: usize, d: usize| #[trigger] call_requires(o, (a, b, c, d))
    &&& forall|a: usize, b: usize, c: usize, d: usize, s: Sign, t: Sign|
        #[trigger] call_ensures(o, (a, b, c, d), s) && #[trigger] call_ensures(o, (a, b, c, d), t) ==> s == t
}

/// `ins` answers every vertex quintuple, and always with the same sign.
pub open spec fn is_insphere_oracle<G: Fn(usize, usize, usize, usize, usize) -> Sign>(ins: G) -> bool {
    &&& forall|a: usize, b: usize, c: usize, d: usize, e: usize| #[trigger] call_requires(ins, (a, b, c, d, e))
    &&& forall|a: usize, b: usize, c: usize, d: usize, e: usize, s: Sign, t: Sign|
        #[trigger] call_ensures(ins, (a, b, c, d, e), s) && #[trigger] call_ensures(ins, (a, b, c, d, e), t)
            ==> s == t
}

pub(crate) fn orient_of<F: Fn(usize, usize, usize, usize) -> Sign>(o: &F, a: usize, b: usize, c: usize, d: usize) -> (s: Sign)
    requires
        is_orient_oracle(*o),
    ensures
        s == orient_sign(*o, a, b, c, d),
{
    o(a, b, c, d)
}

pub(crate) fn insphere_of<G: Fn(usize, usize, usize, usize, usize) -> Sign>(
    ins: &G,
    a: usize,
    b: usize,
    c: usize,
    d: usize,
    e: usize,
) -> (s: Sign)
    requires
        is_insphere_oracle(*ins),
    ensures
        s == insphere_sign(*ins, a, b, c, d, e),
{
    ins(a, b, c, d, e)
}

/// The open segment `u`-`v` properly crosses the open triangle `a, b, c`:
/// its ends lie strictly on opposite sides of the triangle's plane, and it
/// passes strictly inside all three edges. A zero (a shared vertex, a
/// touching edge) counts as no crossing.
pub open spec fn seg_crosses_tri_by<F: Fn(usize, usize, usize, usize) -> Sign>(
    o: F,
    u: usize,
    v: usize,
    a: usize,
    b: usize,
    c: usize,
) -> bool {
    let s1 = orient_sign(o, a, b, c, u);
    let s2 = orient_sign(o, a, b, c, v);
    if s1 == Sign::Zero || s2 == Sign::Zero || s1 == s2 {
        false
    } else {
        let d1 = orient_sign(o, u, v, a, b);
        let d2 = orient_sign(o, u, v, b, c);
        let d3 = orient_sign(o, u, v, c, a);
        !(d1 == Sign::Zero || d2 == Sign::Zero || d3 == Sign::Zero) && d1 == d2 && d2 == d3
    }
}

/// `p` and `q` lie strictly on opposite sides of the plane of triangle `f`.
pub open spec fn opposite_about<F: Fn(usize, usize, usize, usize) -> Sign>(o: F, f: [usize; 3], p: usize, q: usize) -> bool {
    orient_sign(o, f[0], f[1], f[2], p) != Sign::Zero && orient_sign(o, f[0], f[1], f[2], q) != Sign::Zero && orient_sign(
        o,
        f[0],
        f[1],
        f[2],
        p,
    ) != orient_sign(o, f[0], f[1], f[2], q)
}

/// A segment crosses a triangle exactly when its ends lie strictly on
/// opposite sides of the triangle's plane and, seen along the segment, the
/// triangle's three edges all turn the same strict way; in particular two
/// ends strictly on one side (or one on the plane) never cross.
pub proof fn lemma_seg_cross_sides<F: Fn(usize, usize, usize, usize) -> Sign>(
    o: F,
    u: usize,
    v: usize,
    a: usize,
    b: usize,
    c: usize,
)
    ensures
        orient_sign(o, a, b, c, u) == orient_sign(o, a, b, c, v) ==> !seg_crosses_tri_by(o, u, v, a, b, c),
        orient_sign(o, a, b, c, u) == Sign::Zero || orient_sign(o, a, b, c, v) == Sign::Zero ==> !seg_crosses_tri_by(
            o,
            u,
            v,
            a,
            b,
            c,
        ),
        seg_crosses_tri_by(o, u, v, a, b, c) <==> {
            &&& orient_sign(o, a, b, c, u) != Sign::Zero
            &&& orient_sign(o, a, b, c, v) != Sign::Zero
            &&& orient_sign(o, a, b, c, u) != orient_sign(o, a, b, c, v)
            &&& orient_sign(o, u, v, a, b) != Sign::Zero
            &&& orient_sign(o, u, v, a, b) == orient_sign(o, u, v, b, c)
            &&& orient_sign(o, u, v, b, c) == orient_sign(o, u, v, c, a)
        },
{
}

/// Edge `m` (`0..6`) of tet `t` crosses triangle `w`.
pub open spec fn tet_edge_crosses<F: Fn(usize, usize, usize, usize) -> Sign>(
    o: F,
    t: [usize; 4],
    w: [usize; 3],
    m: int,
) -> bool {
    seg_crosses_tri_by(o, t[tet_pair(m).0], t[tet_pair(m).1], w[0], w[1], w[2])
}

/// Edge `k` (`0..3`) of triangle `w` crosses face `i` of tet `t`.
pub open spec fn wall_edge_crosses<F: Fn(usize, usize, usize, usize) -> Sign>(
    o: F,
    t: [usize; 4],
    w: [usize; 3],
    k: int,
    i: int,
) -> bool {
    let f = oriented_face_of(t, i);
    seg_crosses_tri_by(o, w[k], w[(k + 1) % 3], f[0], f[1], f[2])
}

/// Tet `t` properly intersects the interior of wall `w`: a tet edge pierces
/// the wall, or a wall edge pierces a tet face.
pub open spec fn tet_crosses_tri_by<F: Fn(usize, usize, usize, usize) -> Sign>(
    o: F,
    t: [usize; 4],
    w: [usize; 3],
) -> bool {
    ||| exists|m: int| 0 <= m < 6 && #[trigger] tet_edge_crosses(o, t, w, m)
    ||| exists|k: int, i: int| 0 <= k < 3 && 0 <= i < 4 && #[trigger] wall_edge_crosses(o, t, w, k, i)
}

/// Proper intersection of the open segment `u`-`v` with the open triangle
/// `a, b, c`, by exact orientation (see [`seg_crosses_tri_by`]).
pub fn seg_crosses_tri<F: Fn(usize, usize, usize, usize) -> Sign>(
    o: &F,
    u: usize,
    v: usize,
    a: usize,
    b: usize,
    c: usize,
) -> (r: bool)
    requires
        is_orient_oracle(*o),
    ensures
        r == seg_crosses_tri_by(*o, u, v, a, b, c),
        r ==> orient_sign(*o, a, b, c, u) != Sign::Zero && orient_sign(*o, a, b, c, v) != Sign::Zero && orient_sign(
            *o,
            a,
            b,
            c,
            u,
        ) != orient_sign(*o, a, b, c, v),
{
    let s1 = orient_of(o, a, b, c, u);
    let s2 = orient_of(o, a, b, c, v);
    if s1 == Sign::Zero || s2 == Sign::Zero || s1 == s2 {
        return false;
    }
    let d1 = orient_of(o, u, v, a, b);
    let d2 = orient_of(o, u, v, b, c);
    let d3 = orient_of(o, u, v, c, a);
    if d1 == Sign::Zero || d2 == Sign::Zero || d3 == Sign::Zero {
        return false;
    }
    d1 == d2 && d2 == d3
}

/// True if tet `t` properly intersects wall triangle `w`'s interior: a tet
/// edge piercing the wall, or a wall edge piercing a tet face.
pub fn tet_crosses_tri<F: Fn(usize, usize, usize, usize) -> Sign>(o: &F, t: [usize; 4], w: [usize; 3]) -> (r: bool)
    requires
        is_orient_oracle(*o),
    ensures
        r == tet_crosses_tri_by(*o, t, w),
        r ==> (exists|i: int, j: int|
            0 <= i < j < 4 && orient_sign(*o, w[0], w[1], w[2], #[trigger] t[i]) != Sign::Zero && orient_sign(
                *o,
                w[0],
                w[1],
                w[2],
                #[trigger] t[j],
            ) != Sign::Zero && orient_sign(*o, w[0], w[1], w[2], t[i]) != orient_sign(*o, w[0], w[1], w[2], t[j]))
            || (exists|k: int, f: int|
            0 <= k < 3 && 0 <= f < 4 && #[trigger] opposite_about(
                *o,
                oriented_face_of(t, f),
                w[k],
                w[(k + 1) % 3],
            )),
{
    let mut m: usize = 0;
    while m < 6
        invariant
            m <= 6,
            is_orient_oracle(*o),
            forall|m2: int| 0 <= m2 < m ==> !#[trigger] tet_edge_crosses(*o, t, w, m2),
        decreases 6 - m,
    {
        let (i, j): (usize, usize) = if m == 0 {
            (0, 1)
        } else if m == 1 {
            (0, 2)
        } else if m == 2 {
            (0, 3)
        } else if m == 3 {
            (1, 2)
        } else if m == 4 {
            (1, 3)
        } else {
            (2, 3)
        };
        proof {
            assert(tet_pair(m as int) == (i as int, j as int));
        }
        if seg_crosses_tri(o, t[i], t[j], w[0], w[1], w[2]) {
            assert(tet_edge_crosses(*o, t, w, m as int));
            proof {
                assert(t[i as int] == t[i as int] && t[j as int] == t[j as int]);
                assert(0 <= i < j < 4);
            }
            return true;
        }
        m += 1;
    }
    let mut k: usize = 0;
    while k < 3
        invariant
            k <= 3,
            is_orient_oracle(*o),
            forall|m2: int| 0 <= m2 < 6 ==> !#[trigger] tet_edge_crosses(*o, t, w, m2),
            forall|k2: int, i2: int| 0 <= k2 < k && 0 <= i2 < 4 ==> !#[trigger] wall_edge_crosses(*o, t, w, k2, i2),
        decreases 3 - k,
    {
        let u = w[k];
        let v = w[(k + 1) % 3];
        let mut fi: usize = 0;
        while fi < 4
            invariant
                k < 3,
                fi <= 4,
                u == w[k as int],
                v == w[(k + 1) % 3],
                is_orient_oracle(*o),
                forall|i2: int| 0 <= i2 < fi ==> !#[trigger] wall_edge_crosses(*o, t, w, k as int, i2),
            decreases 4 - fi,
        {
            let f = oriented_face(t, fi);
            if seg_crosses_tri(o, u, v, f[0], f[1], f[2]) {
                assert(wall_edge_crosses(*o, t, w, k as int, fi as int));
                proof {
                    assert(f == oriented_face_of(t, fi as int));
                    assert(opposite_about(*o, oriented_face_of(t, fi as int), w[k as int], w[(k + 1) % 3]));
                }
                return true;
            }
            fi += 1;
        }
        k += 1;
    }
    false
}

/// `v` is a vertex of the live real tet in one of the `removed` slots.
pub open spec fn is_cavity_vertex(slab: TetSlab, removed: Seq<u32>, v: usize) -> bool {
    exists|j: int, k: int|
        0 <= j < removed.len() && 0 <= k < 4 && slab_tet_at(slab.tets@, slab.alive@, removed[j]) is Some
            && #[trigger] slab_tet_at(slab.tets@, slab.alive@, removed[j])->0[k] == v
}

/// The three vertices of `f` are cavity vertices.
pub open spec fn tri_on_cavity(slab: TetSlab, removed: Seq<u32>, f: [usize; 3]) -> bool {
    is_cavity_vertex(slab, removed, f[0]) && is_cavity_vertex(slab, removed, f[1]) && is_cavity_vertex(
        slab,
        removed,
        f[2],
    )
}

/// Every vertex of every front triangle is a cavity vertex.
pub open spec fn front_on_cavity(front: Map<[usize; 3], [usize; 3]>, slab: TetSlab, removed: Seq<u32>) -> bool {
    forall|key: [usize; 3]| #[trigger] front.contains_key(key) ==> tri_on_cavity(slab, removed, front[key])
}

/// Vertex set of a cavity: the vertices of the live real tets in the
/// `removed` slots (other slots are skipped).
pub fn cavity_verts(slab: &TetSlab, removed: &[u32]) -> (verts: FxHashSet<usize>)
    requires
        slab.wf(),
    ensures
        forall|v: usize| #[trigger] verts@.contains(v) <==> is_cavity_vertex(*slab, removed@, v),
{
    let mut verts: FxHashSet<usize> = fx_set_empty();
    let mut i: usize = 0;
    while i < removed.len()
        invariant
            slab.wf(),
            i <= removed@.len(),
            forall|v: usize|
                #[trigger] verts@.contains(v) <==> exists|j: int, k: int|
                    0 <= j < i && 0 <= k < 4 && slab_tet_at(slab.tets@, slab.alive@, removed@[j]) is Some
                        && #[trigger] slab_tet_at(slab.tets@, slab.alive@, removed@[j])->0[k] == v,
        decreases removed@.len() - i,
    {
        if let Some(t) = slab.tet_at(removed[i]) {
            let mut k: usize = 0;
            while k < 4
                invariant
                    i < removed@.len(),
                    k <= 4,
                    slab_tet_at(slab.tets@, slab.alive@, removed@[i as int]) == Some(t),
                    forall|v: usize|
                        #[trigger] verts@.contains(v) <==> (exists|j: int, k2: int|
                            0 <= j < i && 0 <= k2 < 4 && slab_tet_at(slab.tets@, slab.alive@, removed@[j]) is Some
                                && #[trigger] slab_tet_at(slab.tets@, slab.alive@, removed@[j])->0[k2] == v) || exists|
                            k2: int,
                        | 0 <= k2 < k && t[k2] == v,
                decreases 4 - k,
            {
                fx_set_insert(&mut verts, t[k]);
                k += 1;
            }
            proof {
                assert forall|v: usize| #[trigger] verts@.contains(v) <==> exists|j: int, k2: int|
                    0 <= j < i + 1 && 0 <= k2 < 4 && slab_tet_at(slab.tets@, slab.alive@, removed@[j]) is Some
                        && #[trigger] slab_tet_at(slab.tets@, slab.alive@, removed@[j])->0[k2] == v by {
                    if exists|k2: int| 0 <= k2 < 4 && t[k2] == v {
                        let k2 = choose|k2: int| 0 <= k2 < 4 && t[k2] == v;
                        assert(slab_tet_at(slab.tets@, slab.alive@, removed@[i as int])->0[k2] == v);
                    }
                    if exists|j: int, k2: int|
                        0 <= j < i + 1 && 0 <= k2 < 4 && slab_tet_at(slab.tets@, slab.alive@, removed@[j]) is Some
                            && #[trigger] slab_tet_at(slab.tets@, slab.alive@, removed@[j])->0[k2] == v {
                        let (j, k2) = choose|j: int, k2: int|
                            0 <= j < i + 1 && 0 <= k2 < 4 && slab_tet_at(slab.tets@, slab.alive@, removed@[j]) is Some
                                && #[trigger] slab_tet_at(slab.tets@, slab.alive@, removed@[j])->0[k2] == v;
                        if j == i {
                            assert(t[k2] == v);
                        }
                    }
                }
            }
        } else {
            proof {
                assert forall|v: usize| #[trigger] verts@.contains(v) <==> exists|j: int, k2: int|
                    0 <= j < i + 1 && 0 <= k2 < 4 && slab_tet_at(slab.tets@, slab.alive@, removed@[j]) is Some
                        && #[trigger] slab_tet_at(slab.tets@, slab.alive@, removed@[j])->0[k2] == v by {
                    if exists|j: int, k2: int|
                        0 <= j < i + 1 && 0 <= k2 < 4 && slab_tet_at(slab.tets@, slab.alive@, removed@[j]) is Some
                            && #[trigger] slab_tet_at(slab.tets@, slab.alive@, removed@[j])->0[k2] == v {
                        let (j, k2) = choose|j: int, k2: int|
                            0 <= j < i + 1 && 0 <= k2 < 4 && slab_tet_at(slab.tets@, slab.alive@, removed@[j]) is Some
                                && #[trigger] slab_tet_at(slab.tets@, slab.alive@, removed@[j])->0[k2] == v;
                        assert(j != i);
                    }
                }
            }
        }
        i += 1;
    }
    verts
}

/// What a gift-wrapped tet promises: positively oriented by `o`, crossing
/// no wall, and spanned by cavity vertices.
pub open spec fn wrapped_tet<F: Fn(usize, usize, usize, usize) -> Sign>(
    o: F,
    slab: TetSlab,
    removed: Seq<u32>,
    walls: Seq<[usize; 3]>,
    t: [usize; 4],
) -> bool {
    &&& orient_sign(o, t[0], t[1], t[2], t[3]) == Sign::Positive
    &&& forall|w: int| 0 <= w < walls.len() ==> !tet_crosses_tri_by(o, t, #[trigger] walls[w])
    &&& forall|k: int| 0 <= k < 4 ==> is_cavity_vertex(slab, removed, #[trigger] t[k])
}

/// Wall `w` is, up to orientation, a face of one of `tets`.
pub open spec fn wall_present(tets: Seq<[usize; 4]>, w: [usize; 3]) -> bool {
    exists|j: int, i: int|
        0 <= j < tets.len() && 0 <= i < 4 && #[trigger] face_key(oriented_face_of(tets[j], i)) == face_key(w)
}

/// Vertex `s` may cap front triangle `f`: it is not a corner of `f`, lies
/// strictly on `f`'s positive side, and the tet `(f, s)` crosses no wall.
pub open spec fn apex_admissible<F: Fn(usize, usize, usize, usize) -> Sign>(
    o: F,
    walls: Seq<[usize; 3]>,
    f: [usize; 3],
    s: usize,
) -> bool {
    &&& s != f[0] && s != f[1] && s != f[2]
    &&& orient_sign(o, f[0], f[1], f[2], s) == Sign::Positive
    &&& forall|w: int| 0 <= w < walls.len() ==> !tet_crosses_tri_by(o, [f[0], f[1], f[2], s], #[trigger] walls[w])
}

/// The apex that scanning the first `n` candidates settles on: the
/// admissible candidates in order, each one replacing the current choice
/// when it lies strictly inside the circumsphere of `f` and that choice.
pub open spec fn pencil_pick<F: Fn(usize, usize, usize, usize) -> Sign, G: Fn(usize, usize, usize, usize, usize) -> Sign>(
    o: F,
    ins: G,
    walls: Seq<[usize; 3]>,
    f: [usize; 3],
    verts: Seq<usize>,
    n: int,
) -> Option<usize>
    decreases n,
{
    if n <= 0 {
        None
    } else {
        let prev = pencil_pick(o, ins, walls, f, verts, n - 1);
        let s = verts[n - 1];
        if apex_admissible(o, walls, f, s) {
            match prev {
                None => Some(s),
                Some(b) => if insphere_sign(ins, f[0], f[1], f[2], b, s) == Sign::Positive {
                    Some(s)
                } else {
                    Some(b)
                },
            }
        } else {
            prev
        }
    }
}

/// The scan settles on no apex exactly when no candidate is admissible,
/// and on an admissible candidate otherwise.
pub proof fn lemma_pencil_pick<F: Fn(usize, usize, usize, usize) -> Sign, G: Fn(usize, usize, usize, usize, usize) -> Sign>(
    o: F,
    ins: G,
    walls: Seq<[usize; 3]>,
    f: [usize; 3],
    verts: Seq<usize>,
    n: int,
)
    requires
        0 <= n <= verts.len(),
    ensures
        pencil_pick(o, ins, walls, f, verts, n) is None <==> forall|j: int|
            0 <= j < n ==> !apex_admissible(o, walls, f, #[trigger] verts[j]),
        pencil_pick(o, ins, walls, f, verts, n) matches Some(s) ==> apex_admissible(o, walls, f, s) && exists|j: int|
            0 <= j < n && verts[j] == s,
    decreases n,
{
    if n > 0 {
        lemma_pencil_pick(o, ins, walls, f, verts, n - 1);
        if pencil_pick(o, ins, walls, f, verts, n - 1) is None && !apex_admissible(o, walls, f, verts[n - 1]) {
            assert forall|j: int| 0 <= j < n implies !apex_admissible(o, walls, f, #[trigger] verts[j]) by {
                if j < n - 1 {
                }
            }
        }
        let pk = pencil_pick(o, ins, walls, f, verts, n);
        if pk is Some {
            let s = pk->0;
            if s != verts[n - 1] {
                let j = choose|j: int| 0 <= j < n - 1 && verts[j] == s;
                assert(0 <= j < n && verts[j] == s);
            }
        }
    }
}

/// The corners of the removed tets, corner slot by corner slot: corner
/// `n % 4` of slot `rm[n / 4]` for each of the first `n` corner slots.
pub open spec fn removed_corners(slab: TetSlab, rm: Seq<u32>, n: int) -> Seq<usize>
    decreases n,
{
    if n <= 0 {
        Seq::empty()
    } else {
        removed_corners(slab, rm, n - 1).push(slab_tet_at(slab.tets@, slab.alive@, rm[(n - 1) / 4])->0[(n - 1) % 4])
    }
}

/// `s` without repeats, each element kept where it first occurs.
pub open spec fn first_seen(s: Seq<usize>) -> Seq<usize>
    decreases s.len(),
{
    if s.len() == 0 {
        Seq::empty()
    } else {
        let p = first_seen(s.drop_last());
        if p.contains(s.last()) {
            p
        } else {
            p.push(s.last())
        }
    }
}

/// The apex candidates of a gift wrap: the vertices of the removed tets,
/// in first-seen order.
pub open spec fn cavity_vertex_seq(slab: TetSlab, rm: Seq<u32>) -> Seq<usize> {
    first_seen(removed_corners(slab, rm, 4 * (rm.len() as int)))
}

/// Step `j` of the run `tets` follows the wrap: the offers before it were
/// accepted, the front they leave holds the base `(t[0], t[1], t[2])` of
/// `t = tets[j]`, and `t[3]` is the apex [`pencil_pick`] settles on for it.
pub open spec fn wrap_step_taken<F: Fn(usize, usize, usize, usize) -> Sign, G: Fn(usize, usize, usize, usize, usize) -> Sign>(
    o: F,
    ins: G,
    walls: Seq<[usize; 3]>,
    verts: Seq<usize>,
    cfs: Seq<[usize; 3]>,
    tets: Seq<[usize; 4]>,
    j: int,
) -> bool {
    let fr = front_fold(Map::empty(), cfs + wrap_events(tets.take(j)));
    let t = tets[j];
    let base = [t[0], t[1], t[2]];
    &&& fr.0
    &&& fr.1.contains_key(face_key(base))
    &&& fr.1[face_key(base)] == base
    &&& pencil_pick(o, ins, walls, base, verts, verts.len() as int) == Some(t[3])
}

/// `tets` is a run of the wrap from the initial front `cfs`: every step
/// caps a triangle of the current front with its [`pencil_pick`] apex.
pub open spec fn wrap_run<F: Fn(usize, usize, usize, usize) -> Sign, G: Fn(usize, usize, usize, usize, usize) -> Sign>(
    o: F,
    ins: G,
    walls: Seq<[usize; 3]>,
    verts: Seq<usize>,
    cfs: Seq<[usize; 3]>,
    tets: Seq<[usize; 4]>,
) -> bool {
    forall|j: int| 0 <= j < tets.len() ==> #[trigger] wrap_step_taken(o, ins, walls, verts, cfs, tets, j)
}

/// After the run `tets` the wrap cannot go on: its offers were accepted
/// and either the front left is not empty and the step bound `cap` is
/// reached, or one of its triangles has no admissible apex, or capping
/// one with its apex is refused by the front; or the front is empty and a
/// wall is not a face of `tets`.
pub open spec fn wrap_stuck<F: Fn(usize, usize, usize, usize) -> Sign, G: Fn(usize, usize, usize, usize, usize) -> Sign>(
    o: F,
    ins: G,
    walls: Seq<[usize; 3]>,
    verts: Seq<usize>,
    cfs: Seq<[usize; 3]>,
    tets: Seq<[usize; 4]>,
    cap: int,
) -> bool {
    let fr = front_fold(Map::empty(), cfs + wrap_events(tets));
    &&& fr.0
    &&& if exists|k: [usize; 3]| #[trigger] fr.1.contains_key(k) {
        ||| tets.len() >= cap
        ||| exists|k: [usize; 3]|
            #[trigger] fr.1.contains_key(k) && match pencil_pick(o, ins, walls, fr.1[k], verts, verts.len() as int) {
                None => true,
                Some(s) => !front_fold(
                    Map::empty(),
                    cfs + wrap_events(tets.push([fr.1[k][0], fr.1[k][1], fr.1[k][2], s])),
                ).0,
            }
    } else {
        exists|w: int| 0 <= w < walls.len() && !wall_present(tets, #[trigger] walls[w])
    }
}

/// A run followed by one more step of the wrap is a run.
proof fn lemma_wrap_run_push<F: Fn(usize, usize, usize, usize) -> Sign, G: Fn(usize, usize, usize, usize, usize) -> Sign>(
    o: F,
    ins: G,
    walls: Seq<[usize; 3]>,
    verts: Seq<usize>,
    cfs: Seq<[usize; 3]>,
    tets: Seq<[usize; 4]>,
    t: [usize; 4],
)
    requires
        wrap_run(o, ins, walls, verts, cfs, tets),
        front_fold(Map::empty(), cfs + wrap_events(tets)).0,
        front_fold(Map::empty(), cfs + wrap_events(tets)).1.contains_key(face_key([t[0], t[1], t[2]])),
        front_fold(Map::empty(), cfs + wrap_events(tets)).1[face_key([t[0], t[1], t[2]])] == [t[0], t[1], t[2]],
        pencil_pick(o, ins, walls, [t[0], t[1], t[2]], verts, verts.len() as int) == Some(t[3]),
    ensures
        wrap_run(o, ins, walls, verts, cfs, tets.push(t)),
{
    let nt = tets.push(t);
    assert forall|j: int| 0 <= j < nt.len() implies #[trigger] wrap_step_taken(o, ins, walls, verts, cfs, nt, j) by {
        assert(nt.take(j) =~= tets.take(j));
        if j < tets.len() {
            assert(wrap_step_taken(o, ins, walls, verts, cfs, tets, j));
            assert(nt[j] == tets[j]);
        } else {
            assert(tets.take(j) =~= tets);
        }
    }
}

/// One gift-wrapping step on front triangle `f`: the tet `(f, s)` whose
/// apex `s` is the in-sphere-best admissible candidate of `verts` (each
/// admissible candidate, in order, replacing the current choice when it
/// lies strictly inside the circumsphere of `f` and that choice); `None`
/// exactly when no candidate is admissible.
pub fn wrap_step<F: Fn(usize, usize, usize, usize) -> Sign, G: Fn(usize, usize, usize, usize, usize) -> Sign>(
    f: [usize; 3],
    verts: &Vec<usize>,
    walls: &[[usize; 3]],
    o: &F,
    ins: &G,
) -> (r: Option<[usize; 4]>)
    requires
        is_orient_oracle(*o),
        is_insphere_oracle(*ins),
    ensures
        r == match pencil_pick(*o, *ins, walls@, f, verts@, verts@.len() as int) {
            Some(s) => Some([f[0], f[1], f[2], s]),
            None => None::<[usize; 4]>,
        },
        r is None <==> forall|j: int| 0 <= j < verts@.len() ==> !apex_admissible(*o, walls@, f, #[trigger] verts@[j]),
        r matches Some(t) ==> t[0] == f[0] && t[1] == f[1] && t[2] == f[2] && apex_admissible(*o, walls@, f, t[3])
            && verts@.contains(t[3]),
{
    let p = f[0];
    let q = f[1];
    let r = f[2];
    let mut best: Option<usize> = None;
    let mut x: usize = 0;
    while x < verts.len()
        invariant
            x <= verts@.len(),
            is_orient_oracle(*o),
            is_insphere_oracle(*ins),
            f == [p, q, r],
            best == pencil_pick(*o, *ins, walls@, f, verts@, x as int),
        decreases verts@.len() - x,
    {
        let s = verts[x];
        x += 1;
        if s == p || s == q || s == r {
            continue;
        }
        if orient_of(o, p, q, r, s) != Sign::Positive {
            continue;
        }
        let mut crosses = false;
        let mut wi: usize = 0;
        while wi < walls.len() && !crosses
            invariant
                wi <= walls@.len(),
                is_orient_oracle(*o),
                !crosses ==> forall|w: int| 0 <= w < wi ==> !tet_crosses_tri_by(*o, [p, q, r, s], #[trigger] walls@[w]),
                crosses ==> wi < walls@.len() && tet_crosses_tri_by(*o, [p, q, r, s], walls@[wi as int]),
            decreases walls@.len() - wi + if crosses { 0int } else { 1 },
        {
            if tet_crosses_tri(o, [p, q, r, s], walls[wi]) {
                crosses = true;
            } else {
                wi += 1;
            }
        }
        if crosses {
            continue;
        }
        best = match best {
            None => Some(s),
            Some(b) => {
                if insphere_of(ins, p, q, r, b, s) == Sign::Positive {
                    Some(s)
                } else {
                    Some(b)
                }
            },
        };
    }
    proof {
        lemma_pencil_pick(*o, *ins, walls@, f, verts@, verts@.len() as int);
    }
    match best {
        Some(s) => Some([p, q, r, s]),
        None => None,
    }
}

/// What [`giftwrap`] gives for the cavity `removed` and the walls `walls`:
/// a wrapped tetrahedrization (a run of the wrap that closes the cavity
/// boundary and has every wall as a face), or `None` when a slot holds no
/// real tet, the cavity boundary is refused, or some run of the wrap gets
/// stuck.
pub open spec fn giftwrap_outcome<F: Fn(usize, usize, usize, usize) -> Sign, G: Fn(usize, usize, usize, usize, usize) -> Sign>(
    slab: TetSlab,
    removed: Seq<u32>,
    walls: Seq<[usize; 3]>,
    o: F,
    ins: G,
    r: Option<Seq<[usize; 4]>>,
) -> bool {
    let cfs = cavity_face_seq(slab, removed, 4 * (removed.len() as int));
    let verts = cavity_vertex_seq(slab, removed);
    match r {
        Some(tets) => {
            &&& wrap_run(o, ins, walls, verts, cfs, tets)
            &&& front_fold(Map::empty(), cfs + wrap_events(tets)) == (true, Map::<[usize; 3], [usize; 3]>::empty())
            &&& forall|w: int| 0 <= w < walls.len() ==> wall_present(tets, #[trigger] walls[w])
            &&& forall|j: int| 0 <= j < tets.len() ==> wrapped_tet(o, slab, removed, walls, #[trigger] tets[j])
        },
        None => {
            ||| exists|j: int| 0 <= j < removed.len() && slab_tet_at(slab.tets@, slab.alive@, #[trigger] removed[j]) is None
            ||| !front_fold(Map::empty(), cfs).0
            ||| exists|tets: Seq<[usize; 4]>|
                #[trigger] wrap_run(o, ins, walls, verts, cfs, tets) && wrap_stuck(
                    o,
                    ins,
                    walls,
                    verts,
                    cfs,
                    tets,
                    (removed.len() as int) * 12 + 128,
                )
        },
    }
}

/// Gift-wraps the cavity `removed` (live tet slots) into a tetrahedrization
/// that contains every `walls` triangle as a face, advancing a front of
/// oriented triangles from the cavity boundary; returns the new tets
/// (public vertex indices), or `None` if the front cannot be closed
/// without Steiner points. `o` and `ins` are the exact orientation and
/// in-sphere predicates over the vertex positions.
pub fn giftwrap<F: Fn(usize, usize, usize, usize) -> Sign, G: Fn(usize, usize, usize, usize, usize) -> Sign>(
    slab: &TetSlab,
    removed: &[u32],
    walls: &[[usize; 3]],
    o: &F,
    ins: &G,
) -> (r: Option<Vec<[usize; 4]>>)
    requires
        slab.wf(),
        is_orient_oracle(*o),
        is_insphere_oracle(*ins),
        removed@.len() * 12 + 128 <= usize::MAX,
    ensures
        (exists|j: int| 0 <= j < removed@.len() && slab_tet_at(slab.tets@, slab.alive@, #[trigger] removed@[j]) is None)
            ==> r is None,
        r matches Some(tets) ==> {
            &&& forall|j: int| 0 <= j < tets@.len() ==> wrapped_tet(*o, *slab, removed@, walls@, #[trigger] tets@[j])
            &&& forall|w: int| 0 <= w < walls@.len() ==> wall_present(tets@, #[trigger] walls@[w])
        },
        removed@.len() == 0 ==> (r is Some <==> walls@.len() == 0),
        r matches Some(tets) ==> front_fold(
            Map::empty(),
            cavity_face_seq(*slab, removed@, 4 * (removed@.len() as int)) + wrap_events(tets@),
        ) == (true, Map::<[usize; 3], [usize; 3]>::empty()),
        (forall|j: int| 0 <= j < removed@.len() ==> slab_tet_at(slab.tets@, slab.alive@, #[trigger] removed@[j]) is Some)
            && !front_fold(Map::empty(), cavity_face_seq(*slab, removed@, 4 * (removed@.len() as int))).0 ==> r is None,
        removed@.len() == 0 ==> (r matches Some(tets) ==> tets@.len() == 0),
        r matches Some(tets) ==> wrap_run(
            *o,
            *ins,
            walls@,
            cavity_vertex_seq(*slab, removed@),
            cavity_face_seq(*slab, removed@, 4 * (removed@.len() as int)),
            tets@,
        ),
        r is None ==> (exists|j: int| 0 <= j < removed@.len() && slab_tet_at(slab.tets@, slab.alive@, #[trigger] removed@[j]) is None)
            || !front_fold(Map::empty(), cavity_face_seq(*slab, removed@, 4 * (removed@.len() as int))).0 || exists|
            tets: Seq<[usize; 4]>,
        |
            #[trigger] wrap_run(
                *o,
                *ins,
                walls@,
                cavity_vertex_seq(*slab, removed@),
                cavity_face_seq(*slab, removed@, 4 * (removed@.len() as int)),
                tets,
            ) && wrap_stuck(
                *o,
                *ins,
                walls@,
                cavity_vertex_seq(*slab, removed@),
                cavity_face_seq(*slab, removed@, 4 * (removed@.len() as int)),
                tets,
                (removed@.len() as int) * 12 + 128,
            ),
        giftwrap_outcome(
            *slab,
            removed@,
            walls@,
            *o,
            *ins,
            match r {
                Some(t) => Some(t@),
                None => None,
            },
        ),
{
    let ghost rm = removed@;
    // Cavity vertices, in first-seen order.
    let mut verts: Vec<usize> = Vec::new();
    let mut seen: FxHashSet<usize> = fx_set_empty();
    let mut i: usize = 0;
    while i < removed.len()
        invariant
            slab.wf(),
            i <= removed@.len(),
            rm == removed@,
            forall|j: int| 0 <= j < i ==> slab_tet_at(slab.tets@, slab.alive@, #[trigger] removed@[j]) is Some,
            forall|x: int| 0 <= x < verts@.len() ==> is_cavity_vertex(*slab, rm, #[trigger] verts@[x]),
            verts@ == first_seen(removed_corners(*slab, rm, 4 * (i as int))),
            forall|v: usize| #[trigger] seen@.contains(v) <==> verts@.contains(v),
        decreases removed@.len() - i,
    {
        let t = match slab.tet_at(removed[i]) {
            Some(t) => t,
            None => {
                proof {
                    assert(slab_tet_at(slab.tets@, slab.alive@, removed@[i as int]) is None);
                }
                return None;
            },
        };
        let mut k: usize = 0;
        while k < 4
            invariant
                k <= 4,
                i < removed@.len(),
                rm == removed@,
                slab_tet_at(slab.tets@, slab.alive@, removed@[i as int]) == Some(t),
                forall|x: int| 0 <= x < verts@.len() ==> is_cavity_vertex(*slab, rm, #[trigger] verts@[x]),
                verts@ == first_seen(removed_corners(*slab, rm, 4 * (i as int) + (k as int))),
                forall|v: usize| #[trigger] seen@.contains(v) <==> verts@.contains(v),
            decreases 4 - k,
        {
            let v = t[k];
            let ghost n: int = 4 * (i as int) + (k as int);
            proof {
                assert((n + 1 - 1) / 4 == i as int && (n + 1 - 1) % 4 == k as int) by (nonlinear_arith)
                    requires
                        n == 4 * i + k,
                        k < 4,
                ;
                let rc = removed_corners(*slab, rm, n);
                assert(removed_corners(*slab, rm, n + 1) == rc.push(v));
                assert(rc.push(v).drop_last() =~= rc);
            }
            let ghost vb = verts@;
            if !fx_set_contains(&seen, &v) {
                fx_set_insert(&mut seen, v);
                proof {
                    assert(slab_tet_at(slab.tets@, slab.alive@, removed@[i as int])->0[k as int] == v);
                }
                verts.push(v);
                proof {
                    assert forall|u: usize| #[trigger] seen@.contains(u) <==> verts@.contains(u) by {
                        if verts@.contains(u) && u != v {
                            let x = choose|x: int| 0 <= x < verts@.len() && verts@[x] == u;
                            assert(vb[x] == u);
                        }
                        if vb.contains(u) {
                            let x = choose|x: int| 0 <= x < vb.len() && vb[x] == u;
                            assert(verts@[x] == u);
                        }
                        if u == v {
                            assert(verts@[verts@.len() - 1] == u);
                        }
                    }
                }
            }
            k += 1;
        }
        i += 1;
    }
    proof {
        assert(verts@ == cavity_vertex_seq(*slab, rm));
    }
    // Initial front: the cavity boundary, each face wound with the cavity
    // on its positive side.
    let mut removed_set: FxHashSet<u32> = fx_set_empty();
    let mut i: usize = 0;
    while i < removed.len()
        invariant
            i <= removed@.len(),
            forall|x: u32| #[trigger] removed_set@.contains(x) <==> exists|j: int| 0 <= j < i && removed@[j] == x,
        decreases removed@.len() - i,
    {
        fx_set_insert(&mut removed_set, removed[i]);
        i += 1;
    }
    proof {
        assert forall|x: u32| #[trigger] removed_set@.contains(x) <==> rm.contains(x) by {
            if removed_set@.contains(x) {
                let j = choose|j: int| 0 <= j < removed@.len() && removed@[j] == x;
                assert(rm[j] == x);
            }
        }
        reveal(front_fold);
    }
    let mut front: FxHashMap<[usize; 3], [usize; 3]> = fx_empty();
    let mut i: usize = 0;
    while i < removed.len()
        invariant
            slab.wf(),
            i <= removed@.len(),
            rm == removed@,
            forall|j: int| 0 <= j < removed@.len() ==> slab_tet_at(slab.tets@, slab.alive@, #[trigger] removed@[j]) is Some,
            front_keyed(front@),
            front_on_cavity(front@, *slab, rm),
            rm.len() == 0 ==> front@ == Map::<[usize; 3], [usize; 3]>::empty(),
            forall|x: u32| #[trigger] removed_set@.contains(x) <==> rm.contains(x),
            (true, front@) == front_fold(Map::empty(), cavity_face_seq(*slab, rm, 4 * i)),
        decreases removed@.len() - i,
    {
        let s = removed[i];
        let t = match slab.tet_at(s) {
            Some(t) => t,
            None => {
                return None;
            },
        };
        let mut fi: usize = 0;
        while fi < 4
            invariant
                slab.wf(),
                fi <= 4,
                i < removed@.len(),
                rm == removed@,
                s == removed@[i as int],
                s < slab.tets@.len(),
                slab_tet_at(slab.tets@, slab.alive@, s) == Some(t),
                front_keyed(front@),
                front_on_cavity(front@, *slab, rm),
                forall|x: u32| #[trigger] removed_set@.contains(x) <==> rm.contains(x),
                (true, front@) == front_fold(Map::empty(), cavity_face_seq(*slab, rm, 4 * i + fi)),
            decreases 4 - fi,
        {
            let interior = match slab.neighbor_at(s, fi) {
                Some(n) => fx_set_contains(&removed_set, &n),
                None => false,
            };
            let ghost q = 4 * i + fi;
            proof {
                assert((q + 1 - 1) / 4 == i as int && (q + 1 - 1) % 4 == fi as int) by (nonlinear_arith)
                    requires
                        q == 4 * i + fi,
                        fi < 4,
                ;
                assert(interior == !bounds_cavity(*slab, rm, s, fi as int));
            }
            if !interior {
                let f = oriented_face(t, fi);
                let ghost before = front@;
                let ok = front_xor(&mut front, f);
                proof {
                    reveal(front_fold);
                    assert(cavity_face_seq(*slab, rm, q + 1) == cavity_face_seq(*slab, rm, q).push(f));
                    assert(cavity_face_seq(*slab, rm, q + 1).drop_last() =~= cavity_face_seq(*slab, rm, q));
                    if !ok {
                        lemma_face_seq_refusal_sticks(*slab, rm, q + 1, 4 * (rm.len() as int));
                    }
                }
                proof {
                    lemma_front_stays_keyed(before, f);
                    assert forall|k: int| 0 <= k < 3 implies is_cavity_vertex(*slab, rm, #[trigger] f[k]) by {
                        let slot = face_slots(if fi < 3 { fi as int } else { 3 });
                        assert(f[k] == t[slot[k]]);
                        assert(slab_tet_at(slab.tets@, slab.alive@, rm[i as int])->0[slot[k]] == f[k]);
                    }
                    assert(tri_on_cavity(*slab, rm, f));
                    assert(front_on_cavity(front@, *slab, rm)) by {
                        assert forall|key: [usize; 3]|
                            #[trigger] front@.contains_key(key) implies tri_on_cavity(*slab, rm, front@[key]) by {
                            if before.contains_key(key) && before[key] == front@[key] {
                            } else {
                                assert(front@[key] == f);
                            }
                        }
                    }
                }
                if !ok {
                    return None;
                }
            }
            proof {
                if interior {
                    assert(cavity_face_seq(*slab, rm, q + 1) == cavity_face_seq(*slab, rm, q));
                }
            }
            fi += 1;
        }
        i += 1;
    }
    // Advance the front: consume one face per step with its best apex.
    let ghost cfs = cavity_face_seq(*slab, rm, 4 * (rm.len() as int));
    let mut result: Vec<[usize; 4]> = Vec::new();
    proof {
        assert(cfs + wrap_events(result@) =~= cfs);
    }
    let max_iters = removed.len() * 12 + 128;
    let mut iters: usize = 0;
    loop
        invariant
            iters <= max_iters,
            rm == removed@,
            is_orient_oracle(*o),
            is_insphere_oracle(*ins),
            forall|x: int| 0 <= x < verts@.len() ==> is_cavity_vertex(*slab, rm, #[trigger] verts@[x]),
            front_keyed(front@),
            front_on_cavity(front@, *slab, rm),
            forall|j: int| 0 <= j < result@.len() ==> wrapped_tet(*o, *slab, rm, walls@, #[trigger] result@[j]),
            rm.len() == 0 ==> front@ == Map::<[usize; 3], [usize; 3]>::empty() && result@.len() == 0,
            cfs == cavity_face_seq(*slab, rm, 4 * (rm.len() as int)),
            (true, front@) == front_fold(Map::empty(), cfs + wrap_events(result@)),
            iters == result@.len(),
            max_iters == rm.len() * 12 + 128,
            verts@ == cavity_vertex_seq(*slab, rm),
            wrap_run(*o, *ins, walls@, verts@, cfs, result@),
        ensures
            rm == removed@,
            forall|j: int| 0 <= j < result@.len() ==> wrapped_tet(*o, *slab, rm, walls@, #[trigger] result@[j]),
            rm.len() == 0 ==> result@.len() == 0,
            front_fold(Map::empty(), cfs + wrap_events(result@)) == (true, Map::<[usize; 3], [usize; 3]>::empty()),
            verts@ == cavity_vertex_seq(*slab, rm),
            wrap_run(*o, *ins, walls@, verts@, cfs, result@),
        decreases max_iters - iters,
    {
        let (_key, f) = match fx_any_entry(&front) {
            Some(entry) => entry,
            None => {
                proof {
                    assert(front@ =~= Map::<[usize; 3], [usize; 3]>::empty());
                }
                break;
            },
        };
        if iters >= max_iters {
            proof {
                assert(front@.contains_key(_key));
                assert(wrap_stuck(*o, *ins, walls@, verts@, cfs, result@, (rm.len() as int) * 12 + 128));
            }
            return None;
        }
        iters += 1;
        let p = f[0];
        let q = f[1];
        let r = f[2];
        proof {
            assert(tri_on_cavity(*slab, rm, front@[_key]));
        }
        let s = match wrap_step(f, &verts, walls, o, ins) {
            Some(t) => t[3],
            None => {
                proof {
                    assert(front@.contains_key(_key) && front@[_key] == f);
                    assert(pencil_pick(*o, *ins, walls@, front@[_key], verts@, verts@.len() as int) is None);
                    assert(wrap_stuck(*o, *ins, walls@, verts@, cfs, result@, (rm.len() as int) * 12 + 128));
                }
                return None;
            },
        };
        proof {
            assert(pencil_pick(*o, *ins, walls@, f, verts@, verts@.len() as int) == Some(s));
            assert([p, q, r] =~= f);
            lemma_wrap_run_push(*o, *ins, walls@, verts@, cfs, result@, [p, q, r, s]);
        }
        proof {
            let x = choose|x: int| 0 <= x < verts@.len() && verts@[x] == s;
            assert(is_cavity_vertex(*slab, rm, verts@[x]));
            let t = [p, q, r, s];
            assert forall|k: int| 0 <= k < 4 implies is_cavity_vertex(*slab, rm, #[trigger] t[k]) by {
                if k < 3 {
                    assert(t[k] == f[k]);
                }
            }
            assert(wrapped_tet(*o, *slab, rm, walls@, t));
        }
        let ghost e0 = cfs + wrap_events(result@);
        let ghost res0 = result@;
        let ghost fr0 = front@;
        result.push([p, q, r, s]);
        proof {
            assert(result@.drop_last() =~= res0);
            assert(wrap_events(result@) == wrap_events(res0) + tet_events([p, q, r, s]));
            assert(cfs + wrap_events(result@) =~= e0 + tet_events([p, q, r, s]));
        }
        // Consume the base face; offer the three new side faces, reversed so
        // their unfilled side (away from `s`) is positive.
        let bk = sorted3(f);
        let ghost before = front@;
        fx_remove(&mut front, &bk);
        let ghost tev = tet_events([p, q, r, s]);
        proof {
            assert(before.contains_key(_key) && before[_key] == f);
            assert(_key == face_key(f));
            lemma_consume_is_reversal(before, f);
            lemma_fold_push(Map::empty(), e0, reversal(f));
            assert(e0 + tev.subrange(0, 1) =~= e0.push(reversal(f)));
            assert(front_keyed(front@));
            assert(front_on_cavity(front@, *slab, rm)) by {
                assert forall|key: [usize; 3]|
                    #[trigger] front@.contains_key(key) implies tri_on_cavity(*slab, rm, front@[key]) by {
                    assert(before.contains_key(key));
                }
            }
        }
        let sides = [[p, q, s], [p, s, r], [s, q, r]];
        let mut si: usize = 0;
        while si < 3
            invariant
                si <= 3,
                rm == removed@,
                sides == [[p, q, s], [p, s, r], [s, q, r]],
                is_cavity_vertex(*slab, rm, p),
                is_cavity_vertex(*slab, rm, q),
                is_cavity_vertex(*slab, rm, r),
                is_cavity_vertex(*slab, rm, s),
                front_keyed(front@),
                front_on_cavity(front@, *slab, rm),
                tev == tet_events([p, q, r, s]),
                (true, front@) == front_fold(Map::empty(), e0 + tev.subrange(0, si + 1)),
                e0 == cfs + wrap_events(res0),
                (true, fr0) == front_fold(Map::empty(), e0),
                fr0.contains_key(_key) && fr0[_key] == f,
                f == [p, q, r],
                pencil_pick(*o, *ins, walls@, f, verts@, verts@.len() as int) == Some(s),
                wrap_run(*o, *ins, walls@, verts@, cfs, res0),
                verts@ == cavity_vertex_seq(*slab, rm),
                cfs == cavity_face_seq(*slab, rm, 4 * (rm.len() as int)),
            decreases 3 - si,
        {
            let nf = sides[si];
            let ghost before = front@;
            let ok = front_xor(&mut front, nf);
            proof {
                assert(nf == tev[si + 1]);
                lemma_fold_push(Map::empty(), e0 + tev.subrange(0, si + 1), nf);
                assert(e0 + tev.subrange(0, si + 2) =~= (e0 + tev.subrange(0, si + 1)).push(nf));
                lemma_front_stays_keyed(before, nf);
                assert(tri_on_cavity(*slab, rm, nf));
                assert forall|key: [usize; 3]|
                    #[trigger] front@.contains_key(key) implies tri_on_cavity(*slab, rm, front@[key]) by {
                    if before.contains_key(key) && before[key] == front@[key] {
                    } else {
                        assert(front@[key] == nf);
                    }
                }
            }
            if !ok {
                proof {
                    assert((e0 + tev).subrange(0, e0.len() + si + 2) =~= e0 + tev.subrange(0, si + 2));
                    lemma_fold_refusal_sticks(Map::empty(), e0 + tev, e0.len() + si + 2);
                    let t = [p, q, r, s];
                    assert(res0.push(t).drop_last() =~= res0);
                    assert(cfs + wrap_events(res0.push(t)) =~= e0 + tev);
                    assert(fr0.contains_key(_key));
                    assert([fr0[_key][0], fr0[_key][1], fr0[_key][2], s] =~= t);
                    assert(wrap_stuck(*o, *ins, walls@, verts@, cfs, res0, (rm.len() as int) * 12 + 128));
                }
                return None;
            }
            si += 1;
        }
        proof {
            assert(tev.subrange(0, 4) =~= tev);
        }
    }
    // Every wall must have emerged as a face of the tiling.
    let mut wi: usize = 0;
    while wi < walls.len()
        invariant
            wi <= walls@.len(),
            forall|w: int| 0 <= w < wi ==> wall_present(result@, #[trigger] walls@[w]),
            rm == removed@,
            rm.len() == 0 ==> result@.len() == 0,
            front_fold(Map::empty(), cfs + wrap_events(result@)) == (true, Map::<[usize; 3], [usize; 3]>::empty()),
            verts@ == cavity_vertex_seq(*slab, rm),
            cfs == cavity_face_seq(*slab, rm, 4 * (rm.len() as int)),
            wrap_run(*o, *ins, walls@, verts@, cfs, result@),
        decreases walls@.len() - wi,
    {
        let wk = sorted3(walls[wi]);
        let mut present = false;
        let mut j: usize = 0;
        while j < result.len() && !present
            invariant
                wi < walls@.len(),
                j <= result@.len(),
                wk == face_key(walls@[wi as int]),
                present ==> wall_present(result@, walls@[wi as int]),
                !present ==> forall|j2: int, i2: int|
                    0 <= j2 < j && 0 <= i2 < 4 ==> #[trigger] face_key(oriented_face_of(result@[j2], i2)) != wk,
            decreases result@.len() - j,
        {
            let mut fi: usize = 0;
            while fi < 4 && !present
                invariant
                    wi < walls@.len(),
                    j < result@.len(),
                    fi <= 4,
                    wk == face_key(walls@[wi as int]),
                    present ==> wall_present(result@, walls@[wi as int]),
                    !present ==> forall|j2: int, i2: int|
                        0 <= j2 < j && 0 <= i2 < 4 ==> #[trigger] face_key(oriented_face_of(result@[j2], i2)) != wk,
                    !present ==> forall|i2: int|
                        0 <= i2 < fi ==> #[trigger] face_key(oriented_face_of(result@[j as int], i2)) != wk,
                decreases 4 - fi,
            {
                let g = sorted3(oriented_face(result[j], fi));
                if g[0] == wk[0] && g[1] == wk[1] && g[2] == wk[2] {
                    proof {
                        assert(g =~= wk);
                        assert(face_key(oriented_face_of(result@[j as int], fi as int)) == face_key(walls@[wi as int]));
                    }
                    present = true;
                } else {
                    proof {
                        assert(g != wk);
                    }
                }
                fi += 1;
            }
            proof {
                if !present {
                    assert forall|j2: int, i2: int| 0 <= j2 < j + 1 && 0 <= i2 < 4 implies #[trigger] face_key(
                        oriented_face_of(result@[j2], i2),
                    ) != wk by {
                        if j2 == j {
                            assert(face_key(oriented_face_of(result@[j as int], i2)) != wk);
                        }
                    }
                }
            }
            j += 1;
        }
        if !present {
            proof {
                assert(!wall_present(result@, walls@[wi as int]));
                assert(!(exists|k: [usize; 3]| #[trigger] Map::<[usize; 3], [usize; 3]>::empty().contains_key(k)));
                assert(wrap_stuck(*o, *ins, walls@, verts@, cfs, result@, (rm.len() as int) * 12 + 128));
            }
            return None;
        }
        wi += 1;
    }
    proof {
        if rm.len() == 0 && walls@.len() > 0 {
            assert(wall_present(result@, walls@[0]));
        }
    }
    Some(result)
}


/// Some wall has the vertices of `f`, in any order.
pub open spec fn has_wall(walls: Seq<[usize; 3]>, f: [usize; 3]) -> bool {
    exists|k: int| 0 <= k < walls.len() && face_key(#[trigger] walls[k]) == face_key(f)
}

/// The walls of a facet recovery with the target facet `[a, b, c]` itself
/// added as a wall, unless one of them already has its vertices.
pub fn walls_with_target(walls: Vec<[usize; 3]>, a: usize, b: usize, c: usize) -> (r: Vec<[usize; 3]>)
    ensures
        r@ == if has_wall(walls@, [a, b, c]) {
            walls@
        } else {
            walls@.push([a, b, c])
        },
{
    let key = sorted3([a, b, c]);
    let mut k: usize = 0;
    while k < walls.len()
        invariant
            k <= walls@.len(),
            key == face_key([a, b, c]),
            forall|j: int| 0 <= j < k ==> face_key(#[trigger] walls@[j]) != key,
        decreases walls@.len() - k,
    {
        let w = sorted3(walls[k]);
        if w[0] == key[0] && w[1] == key[1] && w[2] == key[2] {
            proof {
                assert(face_key(walls@[k as int]) =~= face_key([a, b, c]));
            }
            return walls;
        }
        k += 1;
    }
    let mut r = walls;
    r.push([a, b, c]);
    r
}

/// The slots across the faces of the `removed` slots that hold live real
/// tets: the ring a failed recovery grows its cavity by.
pub open spec fn in_ring(slab: TetSlab, removed: Seq<u32>, x: u32) -> bool {
    exists|j: int, i: int|
        0 <= j < removed.len() && 0 <= i < 4 && removed[j] < slab.tets@.len() && #[trigger] slab_neighbor_at(
            slab.neighbors@,
            removed[j],
            i,
        ) == Some(x) && slab_tet_at(slab.tets@, slab.alive@, x) is Some
}

impl TetSlab {
    /// Grows the cavity slot set `set` by one ring: every live real tet
    /// across a face of a slot of `removed`. Returns whether a slot was
    /// added.
    pub fn enlarge_ring(&self, set: &mut FxHashSet<u32>, removed: &[u32]) -> (added: bool)
        requires
            self.wf(),
            forall|j: int| 0 <= j < removed@.len() ==> (#[trigger] removed@[j]) < self.tets@.len(),
        ensures
            final(set)@ == old(set)@.union(Set::new(|x: u32| in_ring(*self, removed@, x))),
            added <==> !Set::new(|x: u32| in_ring(*self, removed@, x)).subset_of(old(set)@),
    {
        let ghost s0 = set@;
        let mut added = false;
        let mut j: usize = 0;
        while j < removed.len()
            invariant
                self.wf(),
                forall|q: int| 0 <= q < removed@.len() ==> (#[trigger] removed@[q]) < self.tets@.len(),
                j <= removed@.len(),
                forall|x: u32|
                    #[trigger] set@.contains(x) <==> s0.contains(x) || exists|q: int, i: int|
                        0 <= q < j && 0 <= i < 4 && #[trigger] slab_neighbor_at(self.neighbors@, removed@[q], i) == Some(x)
                            && slab_tet_at(self.tets@, self.alive@, x) is Some,
                added <==> exists|x: u32| set@.contains(x) && !s0.contains(x),
            decreases removed@.len() - j,
        {
            let s = removed[j];
            let mut i: usize = 0;
            while i < 4
                invariant
                    self.wf(),
                    forall|q: int| 0 <= q < removed@.len() ==> (#[trigger] removed@[q]) < self.tets@.len(),
                    j < removed@.len(),
                    s == removed@[j as int],
                    i <= 4,
                    forall|x: u32|
                        #[trigger] set@.contains(x) <==> s0.contains(x) || exists|q: int, i2: int|
                            (0 <= q < j && 0 <= i2 < 4 || q == j && 0 <= i2 < i) && #[trigger] slab_neighbor_at(
                                self.neighbors@,
                                removed@[q],
                                i2,
                            ) == Some(x) && slab_tet_at(self.tets@, self.alive@, x) is Some,
                    added <==> exists|x: u32| set@.contains(x) && !s0.contains(x),
                decreases 4 - i,
            {
                if let Some(nb) = self.neighbor_at(s, i) {
                    if self.tet_at(nb).is_some() {
                        let ghost before = set@;
                        let was = fx_set_contains(set, &nb);
                        fx_set_insert(set, nb);
                        if !was {
                            added = true;
                        }
                        proof {
                            assert(slab_neighbor_at(self.neighbors@, removed@[j as int], i as int) == Some(nb));
                            assert forall|x: u32|
                                #[trigger] set@.contains(x) <==> s0.contains(x) || exists|q: int, i2: int|
                                    (0 <= q < j && 0 <= i2 < 4 || q == j && 0 <= i2 < i + 1) && #[trigger] slab_neighbor_at(
                                        self.neighbors@,
                                        removed@[q],
                                        i2,
                                    ) == Some(x) && slab_tet_at(self.tets@, self.alive@, x) is Some by {
                                if x == nb {
                                    assert(set@.contains(x));
                                } else if set@.contains(x) {
                                    assert(before.contains(x));
                                } else {
                                    assert(!before.contains(x));
                                }
                            }
                            if !was {
                                assert(set@.contains(nb) && !s0.contains(nb));
                            }
                            if added && was {
                                let y = choose|y: u32| before.contains(y) && !s0.contains(y);
                                assert(set@.contains(y));
                            }
                            if !added {
                                assert forall|y: u32| set@.contains(y) implies s0.contains(y) by {
                                    if y != nb {
                                        assert(before.contains(y));
                                    } else {
                                        assert(before.contains(nb));
                                    }
                                }
                            }
                        }
                    }
                }
                i += 1;
            }
            j += 1;
        }
        proof {
            let ring = Set::new(|x: u32| in_ring(*self, removed@, x));
            assert(set@ =~= s0.union(ring)) by {
                assert forall|x: u32| set@.contains(x) <==> s0.union(ring).contains(x) by {
                    if set@.contains(x) && !s0.contains(x) {
                        let (q, i2) = choose|q: int, i2: int|
                            0 <= q < removed@.len() && 0 <= i2 < 4 && #[trigger] slab_neighbor_at(
                                self.neighbors@,
                                removed@[q],
                                i2,
                            ) == Some(x) && slab_tet_at(self.tets@, self.alive@, x) is Some;
                        assert(in_ring(*self, removed@, x));
                    }
                    if ring.contains(x) {
                        assert(in_ring(*self, removed@, x));
                        let (q, i2) = choose|q: int, i2: int|
                            0 <= q < removed@.len() && 0 <= i2 < 4 && removed@[q] < self.tets@.len() && #[trigger] slab_neighbor_at(
                                self.neighbors@,
                                removed@[q],
                                i2,
                            ) == Some(x) && slab_tet_at(self.tets@, self.alive@, x) is Some;
                        assert(set@.contains(x));
                    }
                }
            }
            if added {
                let y = choose|y: u32| set@.contains(y) && !s0.contains(y);
                assert(ring.contains(y));
            }
            if !added {
                assert(ring.subset_of(s0)) by {
                    assert forall|x: u32| ring.contains(x) implies s0.contains(x) by {
                        assert(set@.contains(x));
                    }
                }
            }
        }
        added
    }
}

/// Cavity size beyond which facet recovery stops growing the cavity.
pub const MAX_CAVITY: usize = 256;

/// Rounds of cavity growth in the recovery of one facet.
pub const MAX_GROW: usize = 4;

/// The seed cavity of facet `[a, b, c]`: the slots of the live real tets
/// around its three corners.
pub fn cavity_seed(slab: &TetSlab, a: usize, b: usize, c: usize) -> (set: FxHashSet<u32>)
    requires
        slab.wf(),
    ensures
        set@ == star_slots_upto(slab.tets@, slab.alive@, seq![a, b, c], slab.tets@.len() as int).to_set(),
{
    let seeds = vec![a, b, c];
    proof {
        assert(seeds@ =~= seq![a, b, c]);
    }
    let slots = star_slots(slab, &seeds);
    let mut set: FxHashSet<u32> = fx_set_empty();
    let mut i: usize = 0;
    while i < slots.len()
        invariant
            i <= slots@.len(),
            set@ == slots@.subrange(0, i as int).to_set(),
        decreases slots@.len() - i,
    {
        let ghost before = set@;
        fx_set_insert(&mut set, slots[i]);
        proof {
            assert(slots@.subrange(0, i + 1) =~= slots@.subrange(0, i as int).push(slots@[i as int]));
            vstd::seq_lib::seq_to_set_distributes_over_add(slots@.subrange(0, i as int), seq![slots@[i as int]]);
            assert(slots@.subrange(0, i as int).push(slots@[i as int]) =~= slots@.subrange(0, i as int) + seq![
                slots@[i as int],
            ]);
            assert(seq![slots@[i as int]].to_set() =~= Set::empty().insert(slots@[i as int])) by {
                assert(seq![slots@[i as int]][0] == slots@[i as int]);
            }
            assert(set@ =~= slots@.subrange(0, i + 1).to_set());
        }
        i += 1;
    }
    proof {
        assert(slots@.subrange(0, slots@.len() as int) =~= slots@);
    }
    set
}

/// One attempt at recovering facet `[a, b, c]` over the cavity `set`
/// (slots of live tets): the cavity's slots (in the set's order), the walls
/// it keeps (the surface `facets` spanned by cavity vertices, and the
/// target facet itself), and the [`giftwrap`] of the cavity with those
/// walls. The caller replaces the cavity by the wrapped tets, or grows it
/// with [`grow_cavity_ring`] and tries again.
pub fn recover_attempt<F: Fn(usize, usize, usize, usize) -> Sign, G: Fn(usize, usize, usize, usize, usize) -> Sign>(
    slab: &TetSlab,
    set: &FxHashSet<u32>,
    a: usize,
    b: usize,
    c: usize,
    facets: &[[usize; 3]],
    o: &F,
    ins: &G,
) -> (r: (Vec<u32>, Vec<[usize; 3]>, Option<Vec<[usize; 4]>>))
    requires
        slab.wf(),
        is_orient_oracle(*o),
        is_insphere_oracle(*ins),
        set@.len() * 12 + 128 <= usize::MAX,
    ensures
        r.0@.no_duplicates(),
        r.0@.to_set() == set@,
        r.1@ == ({
            let spanned = facets@.filter(
                |f: [usize; 3]|
                    is_cavity_vertex(*slab, r.0@, f[0]) && is_cavity_vertex(*slab, r.0@, f[1]) && is_cavity_vertex(
                        *slab,
                        r.0@,
                        f[2],
                    ),
            );
            if has_wall(spanned, [a, b, c]) {
                spanned
            } else {
                spanned.push([a, b, c])
            }
        }),
        giftwrap_outcome(
            *slab,
            r.0@,
            r.1@,
            *o,
            *ins,
            match r.2 {
                Some(t) => Some(t@),
                None => None,
            },
        ),
{
    let removed = fx_set_items(set);
    proof {
        removed@.unique_seq_to_set();
    }
    let verts = cavity_verts(slab, &removed);
    let spanned = contained_walls(&verts, facets);
    proof {
        let p1 = |f: [usize; 3]| verts@.contains(f[0]) && verts@.contains(f[1]) && verts@.contains(f[2]);
        let p2 = |f: [usize; 3]|
            is_cavity_vertex(*slab, removed@, f[0]) && is_cavity_vertex(*slab, removed@, f[1]) && is_cavity_vertex(
                *slab,
                removed@,
                f[2],
            );
        assert(p1 =~= p2);
    }
    let walls = walls_with_target(spanned, a, b, c);
    let wrapped = giftwrap(slab, &removed, &walls, o, ins);
    (removed, walls, wrapped)
}

/// Grows the cavity `set` of a failed attempt (`removed`, its slots) by one
/// ring of live real tets, unless it already holds [`MAX_CAVITY`] slots;
/// returns whether the cavity grew.
pub fn grow_cavity_ring(slab: &TetSlab, set: &mut FxHashSet<u32>, removed: &[u32]) -> (grown: bool)
    requires
        slab.wf(),
        forall|j: int| 0 <= j < removed@.len() ==> (#[trigger] removed@[j]) < slab.tets@.len(),
    ensures
        removed@.len() >= MAX_CAVITY ==> !grown && final(set)@ == old(set)@,
        removed@.len() < MAX_CAVITY ==> final(set)@ == old(set)@.union(Set::new(|x: u32| in_ring(*slab, removed@, x)))
            && (grown <==> !Set::new(|x: u32| in_ring(*slab, removed@, x)).subset_of(old(set)@)),
{
    if removed.len() >= MAX_CAVITY {
        return false;
    }
    slab.enlarge_ring(set, removed)
}

} // verus!
