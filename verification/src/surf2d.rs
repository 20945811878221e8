//! Combinatorics of the 2D (constrained) Delaunay triangulation that tiles
//! each surface patch: CCW triangles with per-edge neighbor pointers, the
//! diagonal flip, constraint-edge queries, and the decisions that read the
//! exact 2D orientation of the vertices, which callers supply as a
//! predicate over vertex indices.
use crate::fxmap::{fx_get, fx_insert, fx_remove, fx_set_contains, fx_set_insert};
use crate::recover::Sign;
use rustc_hash::{FxHashMap, FxHashSet};
use std::collections::VecDeque;
use vstd::prelude::*;

verus! {

/// Neighbor pointer across a hull edge (no triangle there).
pub const NONE2: usize = usize::MAX;

/// The connectivity of a persistent 2D triangulation: `n` real points plus
/// the three super-triangle vertices `n, n + 1, n + 2`; CCW index triples
/// with `nbr[t][e]` the triangle across edge `e = (tris[t][e], tris[t][e +
/// 1])`.
pub struct Cdt {
    /// Number of real points; super-triangle vertices are `n, n+1, n+2`.
    pub n: usize,
    pub tris: Vec<[usize; 3]>,
    pub nbr: Vec<[usize; 3]>,
    pub alive: Vec<bool>,
}

/// The slot after `e` around a triangle.
pub open spec fn next3(e: int) -> int {
    if e == 2 {
        0
    } else {
        e + 1
    }
}

/// The slot before `e` around a triangle.
pub open spec fn prev3(e: int) -> int {
    if e == 0 {
        2
    } else {
        e - 1
    }
}

/// The first slot `e` of triangle `tri` with directed edge `a -> b`.
pub open spec fn edge_slot_of(tri: [usize; 3], a: usize, b: usize) -> Option<int> {
    if tri[0] == a && tri[1] == b {
        Some(0)
    } else if tri[1] == a && tri[2] == b {
        Some(1)
    } else if tri[2] == a && tri[0] == b {
        Some(2)
    } else {
        None
    }
}

/// `row` with every entry equal to `from` replaced by `to`.
pub open spec fn replace_all(row: [usize; 3], from: usize, to: usize) -> [usize; 3] {
    [
        if row[0] == from { to } else { row[0] },
        if row[1] == from { to } else { row[1] },
        if row[2] == from { to } else { row[2] },
    ]
}

/// The neighbor table after repointing triangle `tri`'s pointers at `from`
/// to `to` (unchanged for the exterior `NONE2`).
pub open spec fn relinked(nbr: Seq<[usize; 3]>, tri: usize, from: usize, to: usize) -> Seq<[usize; 3]> {
    if tri == NONE2 {
        nbr
    } else {
        nbr.update(tri as int, replace_all(nbr[tri as int], from, to))
    }
}

/// The live all-real triangles among the first `k` slots, in slot order.
pub open spec fn real_tris(tris: Seq<[usize; 3]>, alive: Seq<bool>, n: usize, k: int) -> Seq<[usize; 3]>
    decreases k,
{
    if k <= 0 {
        Seq::empty()
    } else {
        let prev = real_tris(tris, alive, n, k - 1);
        let t = tris[k - 1];
        if alive[k - 1] && t[0] < n && t[1] < n && t[2] < n {
            prev.push(t)
        } else {
            prev
        }
    }
}

/// Some live triangle has the undirected edge `{a, b}`.
pub open spec fn has_edge_spec(tris: Seq<[usize; 3]>, alive: Seq<bool>, a: usize, b: usize) -> bool {
    exists|t: int, e: int|
        0 <= t < tris.len() && 0 <= e < 3 && alive[t] && ({
            let u = #[trigger] tris[t][e];
            let v = tris[t][next3(e)];
            (u == a && v == b) || (u == b && v == a)
        })
}

/// Triangle `t` has three distinct vertices.
pub open spec fn distinct3(t: [usize; 3]) -> bool {
    t[0] != t[1] && t[1] != t[2] && t[0] != t[2]
}

/// Every live triangle has three distinct vertices.
pub open spec fn live_tris_distinct(tris: Seq<[usize; 3]>, alive: Seq<bool>) -> bool {
    forall|t: int| 0 <= t < tris.len() && alive[t] ==> distinct3(#[trigger] tris[t])
}

/// The orientation oracle gives `Zero` for a triangle with a repeated first
/// vertex, as an exact predicate over positions does.
pub open spec fn flat_is_zero<F: Fn(usize, usize, usize) -> Sign>(o: F) -> bool {
    forall|a: usize, b: usize| #[trigger] orient2_sign(o, a, a, b) == Sign::Zero
}

/// Every constraint edge `[lo, hi]` present before is present after.
pub open spec fn constraints_kept(
    constraints: Set<[usize; 2]>,
    tris0: Seq<[usize; 3]>,
    alive0: Seq<bool>,
    tris1: Seq<[usize; 3]>,
    alive1: Seq<bool>,
) -> bool {
    forall|c: [usize; 2]|
        constraints.contains(c) && c[0] <= c[1] && has_edge_spec(tris0, alive0, c[0], c[1]) ==> has_edge_spec(
            tris1,
            alive1,
            c[0],
            c[1],
        )
}

/// A flip of the edge `(p, q)` between two live triangles with distinct
/// vertices keeps every other edge of the triangulation.
pub proof fn lemma_flip_keeps_edges(
    tris: Seq<[usize; 3]>,
    nbr: Seq<[usize; 3]>,
    alive: Seq<bool>,
    t: int,
    e: int,
    a: usize,
    b: usize,
)
    requires
        0 <= t < tris.len(),
        0 <= e < 3,
        nbr.len() == tris.len(),
        alive.len() == tris.len(),
        alive[t],
        nbr[t][e] != NONE2,
        nbr[t][e] < tris.len(),
        alive[nbr[t][e] as int],
        edge_slot_of(tris[nbr[t][e] as int], tris[t][next3(e)], tris[t][e]) is Some,
        live_tris_distinct(tris, alive),
        has_edge_spec(tris, alive, a, b),
        !((a == tris[t][e] && b == tris[t][next3(e)]) || (a == tris[t][next3(e)] && b == tris[t][e])),
    ensures
        has_edge_spec(flip_result(tris, nbr, t, e).0, alive, a, b),
{
    let nn = nbr[t][e] as int;
    let p = tris[t][e];
    let q = tris[t][next3(e)];
    let x = tris[t][prev3(e)];
    let f = edge_slot_of(tris[nn], q, p)->0;
    let y = tris[nn][prev3(f)];
    let tris2 = flip_result(tris, nbr, t, e).0;
    assert(distinct3(tris[t]));
    assert(nn != t);
    assert(tris2[t] == [x, p, y]);
    assert(tris2[nn] == [x, y, q]);
    let (t1, e1) = choose|t1: int, e1: int|
        0 <= t1 < tris.len() && 0 <= e1 < 3 && alive[t1] && ({
            let u = #[trigger] tris[t1][e1];
            let v = tris[t1][next3(e1)];
            (u == a && v == b) || (u == b && v == a)
        });
    let u1 = tris[t1][e1];
    let v1 = tris[t1][next3(e1)];
    if t1 != t && t1 != nn {
        assert(tris2[t1] == tris[t1]);
        assert(tris2[t1][e1] == u1);
    } else if t1 == t {
        if e1 == prev3(e) {
            // (x, p)
            assert(tris2[t][0] == x && tris2[t][1] == p);
        } else {
            // (q, x)
            assert(e1 == next3(e));
            assert(tris2[nn][2] == q && tris2[nn][0] == x);
        }
    } else {
        if e1 == next3(f) {
            // (p, y)
            assert(tris2[t][1] == p && tris2[t][2] == y);
        } else {
            // (y, q)
            assert(e1 == prev3(f));
            assert(tris2[nn][1] == y && tris2[nn][2] == q);
        }
    }
}

/// A flip that the flippability test admits keeps every live triangle's
/// vertices distinct.
pub proof fn lemma_flip_keeps_distinct<F: Fn(usize, usize, usize) -> Sign>(
    o: F,
    tris: Seq<[usize; 3]>,
    nbr: Seq<[usize; 3]>,
    alive: Seq<bool>,
    t: int,
    e: int,
)
    requires
        0 <= t < tris.len(),
        0 <= e < 3,
        nbr.len() == tris.len(),
        alive.len() == tris.len(),
        alive[t],
        nbr[t][e] != NONE2,
        nbr[t][e] < tris.len(),
        alive[nbr[t][e] as int],
        flippable_by(o, tris, nbr, t, e),
        flat_is_zero(o),
        live_tris_distinct(tris, alive),
    ensures
        live_tris_distinct(flip_result(tris, nbr, t, e).0, alive),
{
    let nn = nbr[t][e] as int;
    let p = tris[t][e];
    let q = tris[t][next3(e)];
    let x = tris[t][prev3(e)];
    let f = edge_slot_of(tris[nn], q, p)->0;
    let y = tris[nn][prev3(f)];
    let tris2 = flip_result(tris, nbr, t, e).0;
    assert(distinct3(tris[t]));
    assert(distinct3(tris[nn]));
    assert(nn != t);
    assert(orient2_sign(o, x, x, p) == Sign::Zero);
    assert(x != y);
    assert forall|s: int| 0 <= s < tris2.len() && alive[s] implies distinct3(#[trigger] tris2[s]) by {
        if s != t && s != nn {
            assert(tris2[s] == tris[s]);
        }
    }
}

impl Cdt {
    /// Parallel per-slot tables and neighbor pointers that are `NONE2` or
    /// slots.
    pub open spec fn wf(&self) -> bool {
        &&& self.nbr@.len() == self.tris@.len()
        &&& self.alive@.len() == self.tris@.len()
        &&& self.tris@.len() < NONE2
        &&& forall|t: int, e: int|
            #![trigger self.nbr@[t][e]]
            0 <= t < self.tris@.len() && 0 <= e < 3 ==> self.nbr@[t][e] == NONE2 || self.nbr@[t][e]
                < self.tris@.len()
    }

    /// Alive triangles whose three vertices are all real (super-triangle and
    /// its fan dropped).
    pub fn triangles(&self) -> (r: Vec<[usize; 3]>)
        requires
            self.wf(),
        ensures
            r@ == real_tris(self.tris@, self.alive@, self.n, self.tris@.len() as int),
    {
        let mut out: Vec<[usize; 3]> = Vec::new();
        let mut t: usize = 0;
        while t < self.tris.len()
            invariant
                self.wf(),
                t <= self.tris@.len(),
                out@ == real_tris(self.tris@, self.alive@, self.n, t as int),
            decreases self.tris@.len() - t,
        {
            let tri = self.tris[t];
            if self.alive[t] && tri[0] < self.n && tri[1] < self.n && tri[2] < self.n {
                out.push(tri);
            }
            t += 1;
        }
        out
    }

    /// Local edge index `e` of triangle `t` for which `(tris[t][e],
    /// tris[t][e + 1]) == (a, b)`.
    pub fn edge_slot(&self, t: usize, a: usize, b: usize) -> (r: Option<usize>)
        requires
            self.wf(),
            t < self.tris@.len(),
        ensures
            r == match edge_slot_of(self.tris@[t as int], a, b) {
                Some(e) => Some(e as usize),
                None => None::<usize>,
            },
    {
        let tri = self.tris[t];
        if tri[0] == a && tri[1] == b {
            Some(0)
        } else if tri[1] == a && tri[2] == b {
            Some(1)
        } else if tri[2] == a && tri[0] == b {
            Some(2)
        } else {
            None
        }
    }

    /// Repoints the neighbor pointers of `tri` that currently reference
    /// slot `from` to `to` (a no-op for the exterior `NONE2`).
    pub fn relink(&mut self, tri: usize, from: usize, to: usize)
        requires
            old(self).wf(),
            tri == NONE2 || tri < old(self).tris@.len(),
            to == NONE2 || to < old(self).tris@.len(),
        ensures
            final(self).wf(),
            final(self).nbr@ == relinked(old(self).nbr@, tri, from, to),
            final(self).tris@ == old(self).tris@,
            final(self).alive@ == old(self).alive@,
            final(self).n == old(self).n,
    {
        if tri == NONE2 {
            return;
        }
        let mut row = self.nbr[tri];
        let mut e: usize = 0;
        while e < 3
            invariant
                e <= 3,
                tri < old(self).tris@.len(),
                self.nbr@ == old(self).nbr@,
                forall|k: int| 0 <= k < e ==> row[k] == replace_all(old(self).nbr@[tri as int], from, to)[k],
                forall|k: int| e <= k < 3 ==> row[k] == old(self).nbr@[tri as int][k],
            decreases 3 - e,
        {
            if row[e] == from {
                row[e] = to;
            }
            e += 1;
        }
        proof {
            assert(row =~= replace_all(old(self).nbr@[tri as int], from, to));
        }
        self.nbr.set(tri, row);
        proof {
            assert forall|t: int, k: int|
                #![trigger self.nbr@[t][k]]
                0 <= t < self.tris@.len() && 0 <= k < 3 implies self.nbr@[t][k] == NONE2 || self.nbr@[t][k]
                < self.tris@.len() by {
                assert(old(self).nbr@[t][k] == NONE2 || old(self).nbr@[t][k] < old(self).tris@.len());
            }
        }
    }

    /// True iff the undirected edge `(a, b)` is already an edge of some
    /// alive triangle.
    pub fn has_edge(&self, a: usize, b: usize) -> (r: bool)
        requires
            self.wf(),
        ensures
            r == has_edge_spec(self.tris@, self.alive@, a, b),
    {
        let mut t: usize = 0;
        while t < self.tris.len()
            invariant
                self.wf(),
                t <= self.tris@.len(),
                forall|t2: int, e: int|
                    0 <= t2 < t && 0 <= e < 3 && self.alive@[t2] ==> !({
                        let u = #[trigger] self.tris@[t2][e];
                        let v = self.tris@[t2][next3(e)];
                        (u == a && v == b) || (u == b && v == a)
                    }),
            decreases self.tris@.len() - t,
        {
            if self.alive[t] {
                let tv = self.tris[t];
                let mut e: usize = 0;
                while e < 3
                    invariant
                        t < self.tris@.len(),
                        self.alive@[t as int],
                        tv == self.tris@[t as int],
                        e <= 3,
                        forall|e2: int|
                            0 <= e2 < e ==> !({
                                let u = #[trigger] tv[e2];
                                let v = tv[next3(e2)];
                                (u == a && v == b) || (u == b && v == a)
                            }),
                    decreases 3 - e,
                {
                    let u = tv[e];
                    let v = tv[if e == 2 { 0 } else { e + 1 }];
                    if (u == a && v == b) || (u == b && v == a) {
                        proof {
                            assert(self.tris@[t as int][e as int] == u);
                        }
                        return true;
                    }
                    e += 1;
                }
            }
            t += 1;
        }
        false
    }
}

/// `row` with entry `k` replaced by `v`.
pub open spec fn row3_with(row: [usize; 3], k: int, v: usize) -> [usize; 3] {
    [if k == 0 { v } else { row[0] }, if k == 1 { v } else { row[1] }, if k == 2 { v } else { row[2] }]
}

/// The triangles and neighbor table after flipping the diagonal `e = (p,
/// q)` of triangle `t` with the neighbor `nn` across it: with `x` the apex
/// of `t` and `y` that of `nn`, slot `t` becomes `(x, p, y)` and slot `nn`
/// becomes `(x, y, q)`; the four outer neighbors keep facing their edges
/// and are repointed where the edge changed owner.
pub open spec fn flip_result(tris: Seq<[usize; 3]>, nbr: Seq<[usize; 3]>, t: int, e: int) -> (Seq<[usize; 3]>, Seq<
    [usize; 3],
>) {
    let nn = nbr[t][e];
    let p = tris[t][e];
    let q = tris[t][next3(e)];
    let x = tris[t][prev3(e)];
    let f = edge_slot_of(tris[nn as int], q, p)->0;
    let y = tris[nn as int][prev3(f)];
    let n_qx = nbr[t][next3(e)];
    let n_xp = nbr[t][prev3(e)];
    let n_py = nbr[nn as int][next3(f)];
    let n_yq = nbr[nn as int][prev3(f)];
    let tris2 = tris.update(t, [x, p, y]).update(nn as int, [x, y, q]);
    let nbr2 = nbr.update(t, [n_xp, n_py, nn]).update(nn as int, [t as usize, n_yq, n_qx]);
    (tris2, relinked(relinked(nbr2, n_qx, t as usize, nn), n_py, nn, t as usize))
}

/// What [`link_pedge`] does: if the reverse edge `(v, u)` is recorded for
/// `(other, oes)`, the two triangles point at each other across it and the
/// record goes; otherwise `(u, v)` is recorded for `(slot, es)`.
pub open spec fn pedge_effect(
    map1: Map<[usize; 2], (usize, usize)>,
    nbr1: Seq<[usize; 3]>,
    map2: Map<[usize; 2], (usize, usize)>,
    nbr2: Seq<[usize; 3]>,
    slot: usize,
    es: usize,
    u: usize,
    v: usize,
) -> bool {
    if map1.contains_key([v, u]) {
        let other = map1[[v, u]].0;
        let oes = map1[[v, u]].1;
        let mid = nbr1.update(slot as int, row3_with(nbr1[slot as int], es as int, other));
        &&& map2 == map1.remove([v, u])
        &&& nbr2 == mid.update(other as int, row3_with(mid[other as int], oes as int, slot))
    } else {
        &&& map2 == map1.insert([u, v], (slot, es))
        &&& nbr2 == nbr1
    }
}

/// Links the directed edge `(u, v)` at edge slot `es` of triangle `slot` to
/// the neighboring new triangle that owns the reverse edge `(v, u)`.
pub fn link_pedge(
    map: &mut FxHashMap<[usize; 2], (usize, usize)>,
    nbr: &mut Vec<[usize; 3]>,
    slot: usize,
    es: usize,
    u: usize,
    v: usize,
)
    requires
        slot < old(nbr)@.len(),
        es < 3,
        forall|k: [usize; 2]|
            #[trigger] old(map)@.contains_key(k) ==> old(map)@[k].0 < old(nbr)@.len() && old(map)@[k].1 < 3,
    ensures
        pedge_effect(old(map)@, old(nbr)@, final(map)@, final(nbr)@, slot, es, u, v),
{
    match fx_get(map, &[v, u]) {
        Some(entry) => {
            let (other, oes) = entry;
            fx_remove(map, &[v, u]);
            let mut row = nbr[slot];
            row[es] = other;
            proof {
                assert(row =~= row3_with(old(nbr)@[slot as int], es as int, other));
            }
            nbr.set(slot, row);
            let ghost mid = nbr@;
            let mut orow = nbr[other];
            orow[oes] = slot;
            proof {
                assert(orow =~= row3_with(mid[other as int], oes as int, slot));
            }
            nbr.set(other, orow);
        },
        None => {
            fx_insert(map, [u, v], (slot, es));
        },
    }
}

/// The sign orientation oracle `o` gives for `(a, b, c)`.
pub open spec fn orient2_sign<F: Fn(usize, usize, usize) -> Sign>(o: F, a: usize, b: usize, c: usize) -> Sign {
    choose|s: Sign| call_ensures(o, (a, b, c), s)
}

/// `o` answers every vertex triple, and always with the same sign: an
/// exact 2D orientation over fixed positions.
pub open spec fn is_orient2_oracle<F: Fn(usize, usize, usize) -> Sign>(o: F) -> bool {
    &&& forall|a: usize, b: usize, c: usize| #[trigger] call_requires(o, (a, b, c))
    &&& forall|a: usize, b: usize, c: usize, s: Sign, t: Sign|
        #[trigger] call_ensures(o, (a, b, c), s) && #[trigger] call_ensures(o, (a, b, c), t) ==> s == t
}

fn orient2_of<F: Fn(usize, usize, usize) -> Sign>(o: &F, a: usize, b: usize, c: usize) -> (s: Sign)
    requires
        is_orient2_oracle(*o),
    ensures
        s == orient2_sign(*o, a, b, c),
{
    o(a, b, c)
}

/// The open segments `(a, b)` and `(c, d)` cross at one interior point:
/// each segment's ends lie strictly on opposite sides of the other's line.
pub open spec fn proper_cross_by<F: Fn(usize, usize, usize) -> Sign>(o: F, a: usize, b: usize, c: usize, d: usize) -> bool {
    let s1 = orient2_sign(o, a, b, c);
    let s2 = orient2_sign(o, a, b, d);
    let s3 = orient2_sign(o, c, d, a);
    let s4 = orient2_sign(o, c, d, b);
    s1 != Sign::Zero && s2 != Sign::Zero && s1 != s2 && s3 != Sign::Zero && s4 != Sign::Zero && s3 != s4
}

/// Does open segment `(a, b)` properly cross open segment `(c, d)`
/// (interiors intersect at one point)?
pub fn proper_cross<F: Fn(usize, usize, usize) -> Sign>(o: &F, a: usize, b: usize, c: usize, d: usize) -> (r: bool)
    requires
        is_orient2_oracle(*o),
    ensures
        r == proper_cross_by(*o, a, b, c, d),
        r ==> orient2_sign(*o, a, b, c) != Sign::Zero && orient2_sign(*o, a, b, d) != Sign::Zero && orient2_sign(
            *o,
            a,
            b,
            c,
        ) != orient2_sign(*o, a, b, d),
        r == proper_cross_by(*o, c, d, a, b),
{
    proof {
        lemma_proper_cross_sides(*o, a, b, c, d);
    }
    let s1 = orient2_of(o, a, b, c);
    let s2 = orient2_of(o, a, b, d);
    let s3 = orient2_of(o, c, d, a);
    let s4 = orient2_of(o, c, d, b);
    s1 != Sign::Zero && s2 != Sign::Zero && s1 != s2 && s3 != Sign::Zero && s4 != Sign::Zero && s3 != s4
}

/// Two open segments cross exactly when the ends of each lie strictly on
/// opposite sides of the other's line; so the relation is symmetric in the
/// two segments, and an edge with both ends strictly on one side of a
/// segment's line never crosses it.
pub proof fn lemma_proper_cross_sides<F: Fn(usize, usize, usize) -> Sign>(o: F, a: usize, b: usize, c: usize, d: usize)
    ensures
        proper_cross_by(o, a, b, c, d) <==> {
            &&& orient2_sign(o, a, b, c) != Sign::Zero
            &&& orient2_sign(o, a, b, d) != Sign::Zero
            &&& orient2_sign(o, a, b, c) != orient2_sign(o, a, b, d)
            &&& orient2_sign(o, c, d, a) != Sign::Zero
            &&& orient2_sign(o, c, d, b) != Sign::Zero
            &&& orient2_sign(o, c, d, a) != orient2_sign(o, c, d, b)
        },
        proper_cross_by(o, a, b, c, d) == proper_cross_by(o, c, d, a, b),
        orient2_sign(o, a, b, c) == orient2_sign(o, a, b, d) ==> !proper_cross_by(o, a, b, c, d),
{
}

/// Edge `e` of triangle `t` can be flipped: it has a neighbor holding the
/// reversed edge, and the union quad is strictly convex (the edge's ends
/// lie strictly on opposite sides of the line through the two apexes).
pub open spec fn flippable_by<F: Fn(usize, usize, usize) -> Sign>(
    o: F,
    tris: Seq<[usize; 3]>,
    nbr: Seq<[usize; 3]>,
    t: int,
    e: int,
) -> bool {
    let nn = nbr[t][e];
    let p = tris[t][e];
    let q = tris[t][next3(e)];
    let x = tris[t][prev3(e)];
    if nn == NONE2 {
        false
    } else {
        match edge_slot_of(tris[nn as int], q, p) {
            None => false,
            Some(f) => {
                let y = tris[nn as int][prev3(f)];
                let sp = orient2_sign(o, x, y, p);
                let sq = orient2_sign(o, x, y, q);
                sp != Sign::Zero && sq != Sign::Zero && sp != sq
            },
        }
    }
}

impl Cdt {
    /// Is edge `e = (p, q)` of triangle `t` (interior, with neighbor)
    /// flippable, i.e. is the union quad strictly convex so the opposite
    /// diagonal `(x, y)` lies inside it?
    pub fn flippable<F: Fn(usize, usize, usize) -> Sign>(&self, o: &F, t: usize, e: usize) -> (r: bool)
        requires
            self.wf(),
            is_orient2_oracle(*o),
            t < self.tris@.len(),
            e < 3,
        ensures
            r == flippable_by(*o, self.tris@, self.nbr@, t as int, e as int),
    {
        let nn = self.nbr[t][e];
        if nn == NONE2 {
            return false;
        }
        let p = self.tris[t][e];
        let q = self.tris[t][if e == 2 { 0 } else { e + 1 }];
        let x = self.tris[t][if e == 0 { 2 } else { e - 1 }];
        let f = match self.edge_slot(nn, q, p) {
            Some(f) => f,
            None => {
                return false;
            },
        };
        let y = self.tris[nn][if f == 0 { 2 } else { f - 1 }];
        let sp = orient2_of(o, x, y, p);
        let sq = orient2_of(o, x, y, q);
        sp != Sign::Zero && sq != Sign::Zero && sp != sq
    }

    /// Flips the diagonal of the quad sharing edge `e = (p, q)` of
    /// triangle `t` with its neighbor `nn`: replaces the diagonal `(p, q)`
    /// by `(x, y)` where `x`, `y` are the two apexes, reusing slots `t` and
    /// `nn` for `(x, p, y)` and `(x, y, q)`.
    pub fn flip(&mut self, t: usize, e: usize)
        requires
            old(self).wf(),
            t < old(self).tris@.len(),
            e < 3,
            old(self).nbr@[t as int][e as int] != NONE2,
            edge_slot_of(
                old(self).tris@[old(self).nbr@[t as int][e as int] as int],
                old(self).tris@[t as int][next3(e as int)],
                old(self).tris@[t as int][e as int],
            ) is Some,
        ensures
            final(self).wf(),
            (final(self).tris@, final(self).nbr@) == flip_result(old(self).tris@, old(self).nbr@, t as int, e as int),
            final(self).alive@ == old(self).alive@,
            final(self).n == old(self).n,
    {
        let nn = self.nbr[t][e];
        let e1 = if e == 2 { 0 } else { e + 1 };
        let e2 = if e == 0 { 2 } else { e - 1 };
        let p = self.tris[t][e];
        let q = self.tris[t][e1];
        let x = self.tris[t][e2];
        let f = match self.edge_slot(nn, q, p) {
            Some(f) => f,
            None => {
                return;
            },
        };
        let f1 = if f == 2 { 0 } else { f + 1 };
        let f2 = if f == 0 { 2 } else { f - 1 };
        let y = self.tris[nn][f2];
        let n_qx = self.nbr[t][e1];
        let n_xp = self.nbr[t][e2];
        let n_py = self.nbr[nn][f1];
        let n_yq = self.nbr[nn][f2];
        self.tris.set(t, [x, p, y]);
        self.nbr.set(t, [n_xp, n_py, nn]);
        self.tris.set(nn, [x, y, q]);
        self.nbr.set(nn, [t, n_yq, n_qx]);
        proof {
            assert forall|t2: int, k: int|
                #![trigger self.nbr@[t2][k]]
                0 <= t2 < self.tris@.len() && 0 <= k < 3 implies self.nbr@[t2][k] == NONE2 || self.nbr@[t2][k]
                < self.tris@.len() by {
                assert(old(self).nbr@[t2][k] == NONE2 || old(self).nbr@[t2][k] < old(self).tris@.len());
                assert(old(self).nbr@[t as int][e1 as int] == NONE2 || old(self).nbr@[t as int][e1 as int] < old(self).tris@.len());
                assert(old(self).nbr@[t as int][e2 as int] == NONE2 || old(self).nbr@[t as int][e2 as int] < old(self).tris@.len());
                assert(old(self).nbr@[nn as int][f1 as int] == NONE2 || old(self).nbr@[nn as int][f1 as int] < old(self).tris@.len());
                assert(old(self).nbr@[nn as int][f2 as int] == NONE2 || old(self).nbr@[nn as int][f2 as int] < old(self).tris@.len());
            }
        }
        self.relink(n_qx, t, nn);
        self.relink(n_py, nn, t);
    }
}

/// The verdict oracle `inside` gives for triangle `(a, b, c)`: whether its
/// circumcircle strictly contains the point being inserted.
pub open spec fn incircle_says<G: Fn(usize, usize, usize) -> bool>(inside: G, a: usize, b: usize, c: usize) -> bool {
    choose|r: bool| call_ensures(inside, (a, b, c), r)
}

/// `inside` answers every triangle, and always the same way.
pub open spec fn is_incircle_oracle<G: Fn(usize, usize, usize) -> bool>(inside: G) -> bool {
    &&& forall|a: usize, b: usize, c: usize| #[trigger] call_requires(inside, (a, b, c))
    &&& forall|a: usize, b: usize, c: usize, r: bool, s: bool|
        #[trigger] call_ensures(inside, (a, b, c), r) && #[trigger] call_ensures(inside, (a, b, c), s) ==> r == s
}

/// Triangle `t` violates the empty-circle property for the new point.
pub open spec fn is_bad<G: Fn(usize, usize, usize) -> bool>(inside: G, tris: Seq<[usize; 3]>, t: usize) -> bool {
    incircle_says(inside, tris[t as int][0], tris[t as int][1], tris[t as int][2])
}

/// The neighbor across edge `e` of cavity triangle `c` stays: the hull, or
/// a triangle whose circumcircle does not contain the new point.
pub open spec fn keeps_neighbor<G: Fn(usize, usize, usize) -> bool>(
    inside: G,
    tris: Seq<[usize; 3]>,
    nbr: Seq<[usize; 3]>,
    c: usize,
    e: int,
) -> bool {
    let nb = nbr[c as int][e];
    nb == NONE2 || !is_bad(inside, tris, nb)
}

/// `x` is the boundary record of an edge of a cavity triangle whose
/// neighbor stays.
pub open spec fn on_cavity_boundary<G: Fn(usize, usize, usize) -> bool>(
    inside: G,
    tris: Seq<[usize; 3]>,
    nbr: Seq<[usize; 3]>,
    cavity: Seq<usize>,
    x: (usize, usize, usize),
) -> bool {
    exists|k: int, e: int|
        0 <= k < cavity.len() && 0 <= e < 3 && keeps_neighbor(inside, tris, nbr, cavity[k], e) && x
            == #[trigger] cavity_edge(tris, nbr, cavity[k], e)
}

/// The boundary record of edge `e` of cavity triangle `c`: the directed
/// edge and the triangle across it.
pub open spec fn cavity_edge(tris: Seq<[usize; 3]>, nbr: Seq<[usize; 3]>, c: usize, e: int) -> (usize, usize, usize) {
    (tris[c as int][e], tris[c as int][next3(e)], nbr[c as int][e])
}

fn inside_of<G: Fn(usize, usize, usize) -> bool>(inside: &G, a: usize, b: usize, c: usize) -> (r: bool)
    requires
        is_incircle_oracle(*inside),
    ensures
        r == incircle_says(*inside, a, b, c),
{
    inside(a, b, c)
}

/// Distinct slots below `n` number at most `n`.
proof fn lemma_distinct_slots_bound(s: Seq<usize>, n: int)
    requires
        0 <= n,
        s.no_duplicates(),
        forall|k: int| 0 <= k < s.len() ==> (#[trigger] s[k]) < n,
    ensures
        s.len() <= n,
{
    let m = s.map_values(|x: usize| x as int);
    assert(m.no_duplicates()) by {
        assert forall|a: int, b: int| 0 <= a < m.len() && 0 <= b < m.len() && a != b implies m[a] != m[b] by {
            assert(s[a] != s[b]);
        }
    }
    m.unique_seq_to_set();
    vstd::set_lib::lemma_int_range(0, n);
    assert(m.to_set().subset_of(vstd::set_lib::set_int_range(0, n))) by {
        assert forall|x: int| m.to_set().contains(x) implies vstd::set_lib::set_int_range(0, n).contains(x) by {
            let k = choose|k: int| 0 <= k < m.len() && m[k] == x;
            assert(s[k] < n);
        }
    }
    vstd::set_lib::lemma_len_subset(m.to_set(), vstd::set_lib::set_int_range(0, n));
}

impl Cdt {
    /// The Bowyer-Watson cavity of a new point: the triangles whose
    /// circumcircle strictly contains it, grown by a flood fill through
    /// neighbor pointers from `start` (whose circumcircle contains it), each
    /// marked with `epoch`; and the cavity's boundary edges `(a, b, x)`:
    /// the directed edge `a -> b` of a cavity triangle whose neighbor `x`
    /// stays.
    #[verifier::rlimit(40)]
    pub fn cavity_of<G: Fn(usize, usize, usize) -> bool>(
        &self,
        mark: &mut Vec<u32>,
        epoch: u32,
        start: usize,
        inside: &G,
    ) -> (r: (Vec<usize>, Vec<(usize, usize, usize)>))
        requires
            self.wf(),
            is_incircle_oracle(*inside),
            old(mark)@.len() == self.tris@.len(),
            start < self.tris@.len(),
            forall|t: int| 0 <= t < old(mark)@.len() ==> old(mark)@[t] != epoch,
        ensures
            final(mark)@.len() == old(mark)@.len(),
            r.0@.len() > 0,
            r.0@[0] == start,
            r.0@.no_duplicates(),
            forall|k: int|
                0 <= k < r.0@.len() ==> (#[trigger] r.0@[k]) < self.tris@.len() && final(mark)@[r.0@[k] as int]
                    == epoch,
            forall|t: int|
                0 <= t < old(mark)@.len() && !r.0@.contains(t as usize) ==> #[trigger] final(mark)@[t] == old(mark)@[t],
            forall|k: int| 0 < k < r.0@.len() ==> is_bad(*inside, self.tris@, #[trigger] r.0@[k]),
            forall|k: int, e: int|
                #![trigger self.nbr@[r.0@[k] as int][e]]
                0 <= k < r.0@.len() && 0 <= e < 3 ==> keeps_neighbor(*inside, self.tris@, self.nbr@, r.0@[k], e)
                    || r.0@.contains(self.nbr@[r.0@[k] as int][e]),
            forall|x: (usize, usize, usize)|
                r.1@.contains(x) <==> on_cavity_boundary(*inside, self.tris@, self.nbr@, r.0@, x),
            grown_in(self.nbr@, r.0@),
    {
        broadcast use vstd::seq_lib::lemma_seq_contains_after_push;

        let ghost mark0 = mark@;
        mark.set(start, epoch);
        let mut cavity: Vec<usize> = vec![start];
        let mut stack: Vec<usize> = vec![start];
        let mut boundary: Vec<(usize, usize, usize)> = Vec::new();
        // The cavity triangles whose edges are processed: those off the stack.
        let ghost mut done: Set<usize> = Set::empty();
        proof {
            assert(cavity@[0] == start);
            assert(stack@[0] == start);
        }
        while stack.len() > 0
            invariant
                self.wf(),
                is_incircle_oracle(*inside),
                mark@.len() == self.tris@.len(),
                mark0.len() == mark@.len(),
                cavity@.len() > 0,
                cavity@[0] == start,
                cavity@.no_duplicates(),
                forall|k: int| 0 <= k < cavity@.len() ==> (#[trigger] cavity@[k]) < self.tris@.len(),
                forall|t: int| 0 <= t < mark@.len() ==> (#[trigger] mark@[t] == epoch <==> cavity@.contains(t as usize)),
                forall|t: int| 0 <= t < mark@.len() && !cavity@.contains(t as usize) ==> #[trigger] mark@[t] == mark0[t],
                forall|k: int| 0 < k < cavity@.len() ==> is_bad(*inside, self.tris@, #[trigger] cavity@[k]),
                forall|s: int| 0 <= s < stack@.len() ==> cavity@.contains(#[trigger] stack@[s]),
                grown_in(self.nbr@, cavity@),
                stack@.no_duplicates(),
                forall|c: usize| cavity@.contains(c) ==> (stack@.contains(c) <==> !done.contains(c)),
                forall|c: usize| #[trigger] done.contains(c) ==> cavity@.contains(c),
                forall|c: usize, e: int|
                    done.contains(c) && 0 <= e < 3 ==> keeps_neighbor(*inside, self.tris@, self.nbr@, c, e)
                        || cavity@.contains(#[trigger] self.nbr@[c as int][e]),
                forall|x: (usize, usize, usize)|
                    boundary@.contains(x) <==> exists|c: usize, e: int|
                        done.contains(c) && 0 <= e < 3 && keeps_neighbor(*inside, self.tris@, self.nbr@, c, e) && x
                            == #[trigger] cavity_edge(self.tris@, self.nbr@, c, e),
            decreases (self.tris@.len() - cavity@.len()) * 4 + stack@.len(),
        {
            proof {
                lemma_distinct_slots_bound(cavity@, self.tris@.len() as int);
            }
            let ghost stack0 = stack@;
            let ghost cav0 = cavity@;
            let t = stack.pop().unwrap();
            let ghost tj = choose|j: int| 0 <= j < cav0.len() && cav0[j] == t;
            proof {
                assert(stack0 =~= stack@.push(t));
                assert(stack0.contains(t));
                assert(!stack@.contains(t)) by {
                    if stack@.contains(t) {
                        let s = choose|s: int| 0 <= s < stack@.len() && stack@[s] == t;
                        assert(stack0[s] == stack0[stack0.len() - 1]);
                    }
                }
                assert(!done.contains(t));
                assert(cav0[tj] == t);
                assert forall|c: usize| cavity@.contains(c) && c != t implies (stack@.contains(c) <==> !done.contains(c)) by {
                    assert(stack0.contains(c) <==> stack@.contains(c));
                }
                assert forall|s2: int| 0 <= s2 < stack@.len() implies cavity@.contains(#[trigger] stack@[s2]) by {
                    assert(stack@[s2] == stack0[s2]);
                }
            }
            let tv = self.tris[t];
            let mut e: usize = 0;
            while e < 3
                invariant
                    self.wf(),
                    is_incircle_oracle(*inside),
                    e <= 3,
                    t < self.tris@.len(),
                    tv == self.tris@[t as int],
                    !done.contains(t),
                    mark@.len() == self.tris@.len(),
                    mark0.len() == mark@.len(),
                    cavity@.len() > 0,
                    cavity@[0] == start,
                    cavity@.no_duplicates(),
                    cavity@.len() >= cav0.len(),
                    0 <= tj < cav0.len(),
                    cavity@[tj] == t,
                    stack@.len() + cav0.len() + 1 == stack0.len() + cavity@.len(),
                    forall|k: int| 0 <= k < cavity@.len() ==> (#[trigger] cavity@[k]) < self.tris@.len(),
                    forall|t2: int| 0 <= t2 < mark@.len() ==> (#[trigger] mark@[t2] == epoch <==> cavity@.contains(t2 as usize)),
                    forall|t2: int| 0 <= t2 < mark@.len() && !cavity@.contains(t2 as usize) ==> #[trigger] mark@[t2] == mark0[t2],
                    forall|k: int| 0 < k < cavity@.len() ==> is_bad(*inside, self.tris@, #[trigger] cavity@[k]),
                    forall|s2: int| 0 <= s2 < stack@.len() ==> cavity@.contains(#[trigger] stack@[s2]),
                    grown_in(self.nbr@, cavity@),
                    stack@.no_duplicates(),
                    !stack@.contains(t),
                    forall|c: usize| cavity@.contains(c) && c != t ==> (stack@.contains(c) <==> !done.contains(c)),
                    forall|c: usize| #[trigger] done.contains(c) ==> cavity@.contains(c),
                    forall|c: usize, e2: int|
                        done.contains(c) && 0 <= e2 < 3 ==> keeps_neighbor(*inside, self.tris@, self.nbr@, c, e2)
                            || cavity@.contains(#[trigger] self.nbr@[c as int][e2]),
                    forall|e2: int|
                        0 <= e2 < e ==> keeps_neighbor(*inside, self.tris@, self.nbr@, t, e2) || cavity@.contains(
                            #[trigger] self.nbr@[t as int][e2],
                        ),
                    forall|x: (usize, usize, usize)|
                        boundary@.contains(x) <==> (exists|c: usize, e2: int|
                            done.contains(c) && 0 <= e2 < 3 && keeps_neighbor(*inside, self.tris@, self.nbr@, c, e2) && x
                                == #[trigger] cavity_edge(self.tris@, self.nbr@, c, e2)) || (exists|e2: int|
                            0 <= e2 < e && keeps_neighbor(*inside, self.tris@, self.nbr@, t, e2) && x
                                == #[trigger] cavity_edge(self.tris@, self.nbr@, t, e2)),
                decreases 3 - e,
            {
                let nb = self.nbr[t][e];
                let bad = nb != NONE2 && inside_of(inside, self.tris[nb][0], self.tris[nb][1], self.tris[nb][2]);
                proof {
                    assert(bad == !keeps_neighbor(*inside, self.tris@, self.nbr@, t, e as int));
                }
                let ghost cav1 = cavity@;
                let ghost stack1 = stack@;
                let ghost mark1 = mark@;
                let ghost bnd1 = boundary@;
                if bad {
                    if mark[nb] != epoch {
                        proof {
                            assert(!cavity@.contains(nb));
                        }
                        mark.set(nb, epoch);
                        cavity.push(nb);
                        stack.push(nb);
                        proof {
                            lemma_grown_push(self.nbr@, cav1, tj, e as int, nb);
                            assert(cavity@ =~= cav1.push(nb));
                            assert(stack@ =~= stack1.push(nb));
                            assert forall|y: usize| #[trigger] cavity@.contains(y) <==> cav1.contains(y) || y == nb by {
                                if cavity@.contains(y) {
                                    let k = choose|k: int| 0 <= k < cavity@.len() && cavity@[k] == y;
                                    if k < cav1.len() {
                                        assert(cav1[k] == y);
                                    }
                                }
                                if cav1.contains(y) {
                                    let k = choose|k: int| 0 <= k < cav1.len() && cav1[k] == y;
                                    assert(cavity@[k] == y);
                                }
                                if y == nb {
                                    assert(cavity@[cav1.len() as int] == y);
                                }
                            }
                            assert forall|y: usize| #[trigger] stack@.contains(y) <==> stack1.contains(y) || y == nb by {
                                if stack@.contains(y) {
                                    let k = choose|k: int| 0 <= k < stack@.len() && stack@[k] == y;
                                    if k < stack1.len() {
                                        assert(stack1[k] == y);
                                    }
                                }
                                if stack1.contains(y) {
                                    let k = choose|k: int| 0 <= k < stack1.len() && stack1[k] == y;
                                    assert(stack@[k] == y);
                                }
                                if y == nb {
                                    assert(stack@[stack1.len() as int] == y);
                                }
                            }
                            assert(cavity@.no_duplicates()) by {
                                assert forall|a: int, b: int|
                                    0 <= a < cavity@.len() && 0 <= b < cavity@.len() && a != b implies cavity@[a]
                                    != cavity@[b] by {
                                    if a < cav1.len() && b < cav1.len() {
                                        assert(cav1[a] != cav1[b]);
                                    } else if a < cav1.len() {
                                        assert(cav1.contains(cav1[a]));
                                    } else {
                                        assert(cav1.contains(cav1[b]));
                                    }
                                }
                            }
                            assert(stack@.no_duplicates()) by {
                                assert forall|a: int, b: int|
                                    0 <= a < stack@.len() && 0 <= b < stack@.len() && a != b implies stack@[a]
                                    != stack@[b] by {
                                    if a < stack1.len() && b < stack1.len() {
                                        assert(stack1[a] != stack1[b]);
                                    } else if a < stack1.len() {
                                        assert(cav1.contains(stack1[a]));
                                    } else {
                                        assert(cav1.contains(stack1[b]));
                                    }
                                }
                            }
                            assert forall|k: int| 0 < k < cavity@.len() implies is_bad(*inside, self.tris@, #[trigger] cavity@[k]) by {
                                if k < cav1.len() {
                                    assert(cavity@[k] == cav1[k]);
                                }
                            }
                            assert forall|t2: int| 0 <= t2 < mark@.len() implies (#[trigger] mark@[t2] == epoch
                                <==> cavity@.contains(t2 as usize)) by {
                                if t2 != nb as int {
                                    assert(mark@[t2] == mark1[t2]);
                                }
                            }
                            assert(!done.contains(nb));
                            assert(cavity@[tj] == t);
                        }
                    }
                } else {
                    boundary.push((tv[e], tv[if e == 2 { 0 } else { e + 1 }], nb));
                    proof {
                        let x0 = cavity_edge(self.tris@, self.nbr@, t, e as int);
                        assert(boundary@ =~= bnd1.push(x0));
                        assert forall|x: (usize, usize, usize)|
                            boundary@.contains(x) <==> (exists|c: usize, e2: int|
                                done.contains(c) && 0 <= e2 < 3 && keeps_neighbor(*inside, self.tris@, self.nbr@, c, e2)
                                    && x == #[trigger] cavity_edge(self.tris@, self.nbr@, c, e2)) || (exists|e2: int|
                                0 <= e2 < e + 1 && keeps_neighbor(*inside, self.tris@, self.nbr@, t, e2) && x
                                    == #[trigger] cavity_edge(self.tris@, self.nbr@, t, e2)) by {
                            if boundary@.contains(x) {
                                let k = choose|k: int| 0 <= k < boundary@.len() && boundary@[k] == x;
                                if k < bnd1.len() {
                                    assert(bnd1[k] == x);
                                    assert(bnd1.contains(x));
                                }
                            }
                            if x == x0 {
                                assert(boundary@[bnd1.len() as int] == x);
                            }
                            if bnd1.contains(x) {
                                let k = choose|k: int| 0 <= k < bnd1.len() && bnd1[k] == x;
                                assert(boundary@[k] == x);
                            }
                        }
                    }
                }
                e += 1;
            }
            proof {
                let d2 = done.insert(t);
                assert forall|c: usize| cavity@.contains(c) implies (stack@.contains(c) <==> !d2.contains(c)) by {}
                assert forall|x: (usize, usize, usize)|
                    boundary@.contains(x) <==> exists|c: usize, e2: int|
                        d2.contains(c) && 0 <= e2 < 3 && keeps_neighbor(*inside, self.tris@, self.nbr@, c, e2) && x
                            == #[trigger] cavity_edge(self.tris@, self.nbr@, c, e2) by {
                    if exists|c: usize, e2: int|
                        d2.contains(c) && 0 <= e2 < 3 && keeps_neighbor(*inside, self.tris@, self.nbr@, c, e2) && x
                            == #[trigger] cavity_edge(self.tris@, self.nbr@, c, e2) {
                        let (c, e2) = choose|c: usize, e2: int|
                            d2.contains(c) && 0 <= e2 < 3 && keeps_neighbor(*inside, self.tris@, self.nbr@, c, e2) && x
                                == #[trigger] cavity_edge(self.tris@, self.nbr@, c, e2);
                        if c == t {
                            assert(0 <= e2 < 3);
                        }
                    }
                }
                done = d2;
                lemma_distinct_slots_bound(cavity@, self.tris@.len() as int);
            }
        }
        proof {
            assert forall|k: int, e: int|
                #![trigger self.nbr@[cavity@[k] as int][e]]
                0 <= k < cavity@.len() && 0 <= e < 3 implies keeps_neighbor(*inside, self.tris@, self.nbr@, cavity@[k], e)
                    || cavity@.contains(self.nbr@[cavity@[k] as int][e]) by {
                assert(cavity@.contains(cavity@[k]));
                assert(!stack@.contains(cavity@[k]));
            }
            assert forall|x: (usize, usize, usize)|
                boundary@.contains(x) <==> on_cavity_boundary(*inside, self.tris@, self.nbr@, cavity@, x) by {
                if boundary@.contains(x) {
                    let (c, e) = choose|c: usize, e: int|
                        done.contains(c) && 0 <= e < 3 && keeps_neighbor(*inside, self.tris@, self.nbr@, c, e) && x
                            == #[trigger] cavity_edge(self.tris@, self.nbr@, c, e);
                    let k = choose|k: int| 0 <= k < cavity@.len() && cavity@[k] == c;
                    assert(x == cavity_edge(self.tris@, self.nbr@, cavity@[k], e));
                }
                if exists|k: int, e: int|
                    0 <= k < cavity@.len() && 0 <= e < 3 && keeps_neighbor(*inside, self.tris@, self.nbr@, cavity@[k], e)
                        && x == #[trigger] cavity_edge(self.tris@, self.nbr@, cavity@[k], e) {
                    let (k, e) = choose|k: int, e: int|
                        0 <= k < cavity@.len() && 0 <= e < 3 && keeps_neighbor(*inside, self.tris@, self.nbr@, cavity@[k], e)
                            && x == #[trigger] cavity_edge(self.tris@, self.nbr@, cavity@[k], e);
                    assert(cavity@.contains(cavity@[k]));
                    assert(done.contains(cavity@[k]));
                }
            }
        }
        (cavity, boundary)
    }
}

/// `s` holds no value twice.
fn all_distinct(s: &Vec<usize>) -> (r: bool)
    ensures
        r == s@.no_duplicates(),
{
    let mut i: usize = 0;
    while i < s.len()
        invariant
            i <= s@.len(),
            forall|a: int, b: int| 0 <= a < b < s@.len() && a < i ==> s@[a] != s@[b],
        decreases s@.len() - i,
    {
        let mut j: usize = i + 1;
        while j < s.len()
            invariant
                i < s@.len(),
                i + 1 <= j <= s@.len(),
                forall|a: int, b: int| 0 <= a < b < s@.len() && a < i ==> s@[a] != s@[b],
                forall|b: int| i < b < j ==> s@[i as int] != s@[b],
            decreases s@.len() - j,
        {
            if s[i] == s[j] {
                return false;
            }
            j += 1;
        }
        i += 1;
    }
    true
}

impl Cdt {
    /// Whether the neighbor table is consistent in shape: [`Cdt::wf`].
    pub fn is_wf(&self) -> (r: bool)
        ensures
            r == self.wf(),
    {
        if self.nbr.len() != self.tris.len() || self.alive.len() != self.tris.len() || self.tris.len() >= NONE2 {
            return false;
        }
        let mut t: usize = 0;
        while t < self.tris.len()
            invariant
                self.nbr@.len() == self.tris@.len(),
                t <= self.tris@.len(),
                forall|t2: int, e: int|
                    #![trigger self.nbr@[t2][e]]
                    0 <= t2 < t && 0 <= e < 3 ==> self.nbr@[t2][e] == NONE2 || self.nbr@[t2][e] < self.tris@.len(),
            decreases self.tris@.len() - t,
        {
            let row = self.nbr[t];
            let mut e: usize = 0;
            while e < 3
                invariant
                    self.nbr@.len() == self.tris@.len(),
                    t < self.tris@.len(),
                    row == self.nbr@[t as int],
                    e <= 3,
                    forall|t2: int, e2: int|
                        #![trigger self.nbr@[t2][e2]]
                        0 <= t2 < t && 0 <= e2 < 3 ==> self.nbr@[t2][e2] == NONE2 || self.nbr@[t2][e2] < self.tris@.len(),
                    forall|e2: int| 0 <= e2 < e ==> row[e2] == NONE2 || row[e2] < self.tris@.len(),
                decreases 3 - e,
            {
                if row[e] != NONE2 && row[e] >= self.tris.len() {
                    return false;
                }
                e += 1;
            }
            t += 1;
        }
        true
    }

    /// Whether [`Cdt::cavity_of`] may start from `start` with the marks
    /// `mark` under `epoch`: one mark per slot, `start` a slot, and no mark
    /// already at `epoch`.
    pub fn cavity_ready(&self, mark: &Vec<u32>, epoch: u32, start: usize) -> (r: bool)
        ensures
            r == (mark@.len() == self.tris@.len() && start < self.tris@.len() && forall|t: int|
                0 <= t < mark@.len() ==> mark@[t] != epoch),
    {
        if mark.len() != self.tris.len() || start >= self.tris.len() {
            return false;
        }
        let mut t: usize = 0;
        while t < mark.len()
            invariant
                t <= mark@.len(),
                forall|t2: int| 0 <= t2 < t ==> mark@[t2] != epoch,
            decreases mark@.len() - t,
        {
            if mark[t] == epoch {
                return false;
            }
            t += 1;
        }
        true
    }

    /// Whether [`Cdt::fan`] may re-fill `cavity` along `boundary` with the
    /// free slots `free` and marks `mark`: every requirement of `fan` beyond
    /// [`Cdt::wf`].
    pub fn fan_ready(
        &self,
        free: &Vec<usize>,
        mark: &Vec<u32>,
        cavity: &Vec<usize>,
        boundary: &Vec<(usize, usize, usize)>,
    ) -> (r: bool)
        requires
            self.wf(),
        ensures
            r == ({
                &&& mark@.len() == self.tris@.len()
                &&& self.tris@.len() + boundary@.len() < NONE2
                &&& forall|k: int| 0 <= k < free@.len() ==> (#[trigger] free@[k]) < self.tris@.len()
                &&& free@.no_duplicates()
                &&& forall|k: int| 0 <= k < free@.len() ==> !self.alive@[#[trigger] free@[k] as int]
                &&& forall|c: int| 0 <= c < cavity@.len() ==> (#[trigger] cavity@[c]) < self.tris@.len()
                &&& cavity@.no_duplicates()
                &&& forall|c: int| 0 <= c < cavity@.len() ==> self.alive@[#[trigger] cavity@[c] as int]
                &&& forall|j: int|
                    0 <= j < boundary@.len() ==> (#[trigger] boundary@[j]).2 == NONE2 || (boundary@[j].2
                        < self.tris@.len() && self.alive@[boundary@[j].2 as int] && !cavity@.contains(boundary@[j].2))
            }),
    {
        if mark.len() != self.tris.len() || boundary.len() >= NONE2 - self.tris.len() {
            return false;
        }
        let mut k: usize = 0;
        while k < free.len()
            invariant
                self.wf(),
                k <= free@.len(),
                forall|k2: int| 0 <= k2 < k ==> (#[trigger] free@[k2]) < self.tris@.len() && !self.alive@[free@[k2] as int],
            decreases free@.len() - k,
        {
            if free[k] >= self.tris.len() || self.alive[free[k]] {
                return false;
            }
            k += 1;
        }
        if !all_distinct(free) || !all_distinct(cavity) {
            return false;
        }
        let mut c: usize = 0;
        while c < cavity.len()
            invariant
                self.wf(),
                c <= cavity@.len(),
                forall|c2: int| 0 <= c2 < c ==> (#[trigger] cavity@[c2]) < self.tris@.len() && self.alive@[cavity@[c2] as int],
            decreases cavity@.len() - c,
        {
            if cavity[c] >= self.tris.len() || !self.alive[cavity[c]] {
                return false;
            }
            c += 1;
        }
        let mut j: usize = 0;
        while j < boundary.len()
            invariant
                self.wf(),
                j <= boundary@.len(),
                forall|j2: int|
                    0 <= j2 < j ==> (#[trigger] boundary@[j2]).2 == NONE2 || (boundary@[j2].2 < self.tris@.len()
                        && self.alive@[boundary@[j2].2 as int] && !cavity@.contains(boundary@[j2].2)),
            decreases boundary@.len() - j,
        {
            let x = boundary[j].2;
            if x != NONE2 {
                if x >= self.tris.len() || !self.alive[x] {
                    return false;
                }
                let mut c: usize = 0;
                while c < cavity.len()
                    invariant
                        c <= cavity@.len(),
                        forall|c2: int| 0 <= c2 < c ==> cavity@[c2] != x,
                        j < boundary@.len(),
                        x == boundary@[j as int].2,
                        x != NONE2,
                    decreases cavity@.len() - c,
                {
                    if cavity[c] == x {
                        proof {
                            assert(cavity@.contains(x));
                        }
                        return false;
                    }
                    c += 1;
                }
            }
            j += 1;
        }
        true
    }
}

impl Cdt {
    /// Links fan triangle `slot` = `(a, b, i)` to the fan's earlier
    /// triangles across `b -> i` (its edge 1) and `i -> a` (its edge 2).
    #[verifier::rlimit(30)]
    fn fan_link(
        &mut self,
        edge_map: &mut FxHashMap<[usize; 2], (usize, usize)>,
        slot: usize,
        a: usize,
        b: usize,
        i: usize,
        Ghost(ns): Ghost<Seq<usize>>,
    )
        requires
            old(self).wf(),
            slot < old(self).tris@.len(),
            forall|k: int| 0 <= k < ns.len() ==> (#[trigger] ns[k]) < old(self).tris@.len(),
            forall|key: [usize; 2]|
                #[trigger] old(edge_map)@.contains_key(key) ==> ns.contains(old(edge_map)@[key].0) && 1 <= old(
                    edge_map,
                )@[key].1 < 3,
        ensures
            final(self).wf(),
            final(self).tris@ == old(self).tris@,
            final(self).alive@ == old(self).alive@,
            final(self).n == old(self).n,
            forall|t: int, k: int|
                0 <= t < old(self).tris@.len() && 0 <= k < 3 && #[trigger] final(self).nbr@[t][k] != old(self).nbr@[t][k]
                    ==> (t == slot as int || ns.contains(t as usize)) && k != 0,
            forall|key: [usize; 2]|
                #[trigger] final(edge_map)@.contains_key(key) ==> (ns.contains(final(edge_map)@[key].0)
                    || final(edge_map)@[key].0 == slot) && 1 <= final(edge_map)@[key].1 < 3,
            exists|map_mid: Map<[usize; 2], (usize, usize)>, nbr_mid: Seq<[usize; 3]>|
                pedge_effect(old(edge_map)@, old(self).nbr@, map_mid, nbr_mid, slot, 1, b, i) && #[trigger] pedge_effect(
                    map_mid,
                    nbr_mid,
                    final(edge_map)@,
                    final(self).nbr@,
                    slot,
                    2,
                    i,
                    a,
                ),
    {
        let ghost nb4 = self.nbr@;
        let ghost map4 = edge_map@;
        proof {
            assert forall|key: [usize; 2]| #[trigger] edge_map@.contains_key(key) implies edge_map@[key].0 < self.nbr@.len()
                && edge_map@[key].1 < 3 by {
                let k = choose|k: int| 0 <= k < ns.len() && ns[k] == edge_map@[key].0;
            }
        }
        link_pedge(edge_map, &mut self.nbr, slot, 1, b, i);
        let ghost nb5 = self.nbr@;
        let ghost map5 = edge_map@;
        proof {
            assert forall|t: int, k: int| 0 <= t < nb4.len() && 0 <= k < 3 && #[trigger] nb5[t][k] != nb4[t][k] implies (t
                == slot as int || ns.contains(t as usize)) && k != 0 by {
                if !(t == slot as int && k == 1) {
                    let other = map4[[i, b]].0;
                    assert(map4.contains_key([i, b]));
                    assert(t == other as int);
                }
            }
            assert forall|t: int, k: int|
                #![trigger self.nbr@[t][k]]
                0 <= t < self.tris@.len() && 0 <= k < 3 implies self.nbr@[t][k] == NONE2 || self.nbr@[t][k]
                < self.tris@.len() by {
                assert(nb4[t][k] == NONE2 || nb4[t][k] < self.tris@.len());
                if nb5[t][k] != nb4[t][k] && map4.contains_key([i, b]) {
                    assert(ns.contains(map4[[i, b]].0));
                    let kk = choose|kk: int| 0 <= kk < ns.len() && ns[kk] == map4[[i, b]].0;
                }
            }
            assert forall|key: [usize; 2]| #[trigger] edge_map@.contains_key(key) implies edge_map@[key].0 < self.nbr@.len()
                && edge_map@[key].1 < 3 by {
                if edge_map@[key].0 != slot {
                    let k = choose|k: int| 0 <= k < ns.len() && ns[k] == edge_map@[key].0;
                }
            }
        }
        link_pedge(edge_map, &mut self.nbr, slot, 2, i, a);
        proof {
            let nb6 = self.nbr@;
            assert forall|t: int, k: int| 0 <= t < nb5.len() && 0 <= k < 3 && #[trigger] nb6[t][k] != nb5[t][k] implies (t
                == slot as int || ns.contains(t as usize)) && k != 0 by {
                if !(t == slot as int && k == 2) {
                    let other = map5[[a, i]].0;
                    assert(map5.contains_key([a, i]));
                    assert(t == other as int);
                }
            }
            assert forall|t: int, k: int|
                #![trigger self.nbr@[t][k]]
                0 <= t < self.tris@.len() && 0 <= k < 3 implies self.nbr@[t][k] == NONE2 || self.nbr@[t][k]
                < self.tris@.len() by {
                assert(nb5[t][k] == NONE2 || nb5[t][k] < self.tris@.len());
                if nb6[t][k] != nb5[t][k] && map5.contains_key([a, i]) {
                    assert(ns.contains(map5[[a, i]].0) || map5[[a, i]].0 == slot);
                    if map5[[a, i]].0 != slot {
                        let kk = choose|kk: int| 0 <= kk < ns.len() && ns[kk] == map5[[a, i]].0;
                    }
                }
            }
            assert forall|t: int, k: int|
                0 <= t < nb4.len() && 0 <= k < 3 && #[trigger] nb6[t][k] != nb4[t][k] implies (t == slot as int
                    || ns.contains(t as usize)) && k != 0 by {
                if nb5[t][k] != nb4[t][k] {
                } else {
                    assert(nb6[t][k] != nb5[t][k]);
                }
            }
            assert(pedge_effect(map4, nb4, map5, nb5, slot, 1, b, i));
            assert(pedge_effect(map5, nb5, edge_map@, nb6, slot, 2, i, a));
        }
    }
}

impl Cdt {
    /// One boundary edge `(a, b, x)` of a fan: places triangle `(a, b, i)`
    /// in the most recently freed slot, else a new one, faces it to `x`
    /// across `a -> b` (repointing `x` across `b -> a`), and links it to
    /// the fan's earlier triangles across `b -> i` and `i -> a`.
    #[verifier::rlimit(40)]
    fn fan_one(
        &mut self,
        free: &mut Vec<usize>,
        mark: &mut Vec<u32>,
        edge_map: &mut FxHashMap<[usize; 2], (usize, usize)>,
        i: usize,
        a: usize,
        b: usize,
        x: usize,
        Ghost(len0): Ghost<int>,
        Ghost(alive_mid): Ghost<Seq<bool>>,
        Ghost(ns): Ghost<Seq<usize>>,
    ) -> (slot: usize)
        requires
            old(self).wf(),
            old(mark)@.len() == old(self).tris@.len(),
            old(self).tris@.len() + 1 < NONE2,
            len0 <= old(self).tris@.len(),
            alive_mid.len() == len0,
            x == NONE2 || (x < len0 && alive_mid[x as int]),
            forall|k: int|
                0 <= k < old(free)@.len() ==> {
                    let f = #[trigger] old(free)@[k];
                    &&& f < len0
                    &&& !alive_mid[f as int]
                    &&& !ns.contains(f)
                },
            old(free)@.no_duplicates(),
            forall|k: int| 0 <= k < ns.len() ==> (#[trigger] ns[k]) < old(self).tris@.len() && !(ns[k] < len0 && alive_mid[ns[k] as int]),
            forall|key: [usize; 2]|
                #[trigger] old(edge_map)@.contains_key(key) ==> ns.contains(old(edge_map)@[key].0) && 1 <= old(
                    edge_map,
                )@[key].1 < 3,
        ensures
            final(self).wf(),
            final(mark)@.len() == final(self).tris@.len(),
            final(self).n == old(self).n,
            !(slot < len0 && alive_mid[slot as int]),
            !ns.contains(slot),
            slot < final(self).tris@.len(),
            old(free)@.len() > 0 ==> {
                &&& slot == old(free)@.last()
                &&& final(free)@ == old(free)@.drop_last()
                &&& final(self).tris@.len() == old(self).tris@.len()
            },
            old(free)@.len() == 0 ==> {
                &&& slot == old(self).tris@.len()
                &&& final(free)@ == old(free)@
                &&& final(self).tris@.len() == old(self).tris@.len() + 1
            },
            final(self).tris@ == if old(free)@.len() > 0 {
                old(self).tris@.update(slot as int, [a, b, i])
            } else {
                old(self).tris@.push([a, b, i])
            },
            final(self).alive@ == if old(free)@.len() > 0 {
                old(self).alive@.update(slot as int, true)
            } else {
                old(self).alive@.push(true)
            },
            final(self).nbr@[slot as int][0] == x,
            forall|t: int, k: int|
                0 <= t < old(self).tris@.len() && 0 <= k < 3 && t != slot as int && t != x as int
                    && #[trigger] final(self).nbr@[t][k] != old(self).nbr@[t][k] ==> ns.contains(t as usize) && k != 0,
            forall|key: [usize; 2]|
                #[trigger] final(edge_map)@.contains_key(key) ==> (ns.contains(final(edge_map)@[key].0)
                    || final(edge_map)@[key].0 == slot) && 1 <= final(edge_map)@[key].1 < 3,
    {
        let ghost pre = (self.tris@, self.nbr@, self.alive@, free@);
        let slot = match free.pop() {
            Some(s) => {
                self.tris.set(s, [a, b, i]);
                self.nbr.set(s, [NONE2, NONE2, NONE2]);
                self.alive.set(s, true);
                s
            },
            None => {
                self.tris.push([a, b, i]);
                self.nbr.push([NONE2, NONE2, NONE2]);
                self.alive.push(true);
                mark.push(0);
                self.tris.len() - 1
            },
        };
        proof {
            if pre.3.len() > 0 {
                assert(pre.3 =~= free@.push(slot));
                assert(pre.3[pre.3.len() - 1] == slot);
            }
            assert(!(slot < len0 && alive_mid[slot as int]));
            assert(!ns.contains(slot)) by {
                if ns.contains(slot) {
                    let k = choose|k: int| 0 <= k < ns.len() && ns[k] == slot;
                    assert(ns[k] < pre.0.len());
                }
            }
        }
        let mut row = self.nbr[slot];
        row[0] = x;
        self.nbr.set(slot, row);
        if x != NONE2 {
            let xt = self.tris[x];
            let xr = self.nbr[x];
            let nxr = [
                if xt[0] == b && xt[1] == a { slot } else { xr[0] },
                if xt[1] == b && xt[2] == a { slot } else { xr[1] },
                if xt[2] == b && xt[0] == a { slot } else { xr[2] },
            ];
            self.nbr.set(x, nxr);
        }
        let ghost nb4 = self.nbr@;
        let ghost map4 = edge_map@;
        proof {
            assert forall|t: int, k: int|
                #![trigger self.nbr@[t][k]]
                0 <= t < self.tris@.len() && 0 <= k < 3 implies self.nbr@[t][k] == NONE2 || self.nbr@[t][k]
                < self.tris@.len() by {
                if t != slot as int && t != x as int && t < pre.1.len() {
                    assert(pre.1[t][k] == NONE2 || pre.1[t][k] < pre.0.len());
                }
                if t == x as int && x != NONE2 {
                    assert(pre.1[t][k] == NONE2 || pre.1[t][k] < pre.0.len());
                }
            }
        }
        proof {
            assert(nb4[slot as int][0] == x);
        }
        self.fan_link(edge_map, slot, a, b, i, Ghost(ns));
        proof {
            let nb6 = self.nbr@;
            assert forall|t: int, k: int|
                0 <= t < pre.0.len() && 0 <= k < 3 && t != slot as int && t != x as int
                    && #[trigger] nb6[t][k] != pre.1[t][k] implies ns.contains(t as usize) && k != 0 by {
                assert(nb4[t][k] == pre.1[t][k]);
            }
        }
        slot
    }
}

impl Cdt {
    /// Retires the cavity and fans point `i` to its boundary: every cavity
    /// triangle goes to the free list, then each boundary edge `(a, b, x)`
    /// gets a triangle `(a, b, i)` -- in the most recently freed slot, else
    /// a new one -- facing `x` across `a -> b` (and `x` repointed to it
    /// across `b -> a`), linked to its neighbors in the fan across the
    /// edges `b -> i` and `i -> a`. Returns the last triangle placed
    /// (`start` for an empty boundary).
    #[verifier::rlimit(60)]
    pub fn fan(
        &mut self,
        free: &mut Vec<usize>,
        mark: &mut Vec<u32>,
        i: usize,
        start: usize,
        cavity: &Vec<usize>,
        boundary: &Vec<(usize, usize, usize)>,
    ) -> (last: usize)
        requires
            old(self).wf(),
            old(mark)@.len() == old(self).tris@.len(),
            old(self).tris@.len() + boundary@.len() < NONE2,
            forall|k: int| 0 <= k < old(free)@.len() ==> (#[trigger] old(free)@[k]) < old(self).tris@.len(),
            forall|c: int| 0 <= c < cavity@.len() ==> (#[trigger] cavity@[c]) < old(self).tris@.len(),
            old(free)@.no_duplicates(),
            forall|k: int| 0 <= k < old(free)@.len() ==> !old(self).alive@[#[trigger] old(free)@[k] as int],
            cavity@.no_duplicates(),
            forall|c: int| 0 <= c < cavity@.len() ==> old(self).alive@[#[trigger] cavity@[c] as int],
            forall|j: int|
                0 <= j < boundary@.len() ==> (#[trigger] boundary@[j]).2 == NONE2 || (boundary@[j].2
                    < old(self).tris@.len() && old(self).alive@[boundary@[j].2 as int] && !cavity@.contains(
                    boundary@[j].2,
                )),
        ensures
            final(self).wf(),
            final(mark)@.len() == final(self).tris@.len(),
            final(self).n == old(self).n,
            final(self).tris@.len() >= old(self).tris@.len(),
            boundary@.len() == 0 ==> last == start,
            boundary@.len() > 0 ==> {
                &&& last < final(self).tris@.len()
                &&& final(self).alive@[last as int]
                &&& final(self).tris@[last as int] == [boundary@.last().0, boundary@.last().1, i]
            },
            forall|c: int|
                0 <= c < cavity@.len() ==> !final(self).alive@[#[trigger] cavity@[c] as int] || exists|j: int|
                    0 <= j < boundary@.len() && final(self).tris@[cavity@[c] as int] == [
                        #[trigger] boundary@[j].0,
                        boundary@[j].1,
                        i,
                    ],
            forall|j: int|
                0 <= j < boundary@.len() ==> exists|t: int|
                    0 <= t < final(self).tris@.len() && final(self).alive@[t] && final(self).tris@[t] == [
                        (#[trigger] boundary@[j]).0,
                        boundary@[j].1,
                        i,
                    ] && final(self).nbr@[t][0] == boundary@[j].2,
            forall|t: int|
                0 <= t < old(self).tris@.len() && old(self).alive@[t] && !cavity@.contains(t as usize)
                    ==> #[trigger] final(self).tris@[t] == old(self).tris@[t],
            forall|t: int|
                0 <= t < old(self).tris@.len() && old(self).alive@[t] && !cavity@.contains(t as usize)
                    ==> #[trigger] final(self).alive@[t],
    {
        let ghost tris0 = self.tris@;
        let ghost alive0 = self.alive@;
        let ghost free0 = free@;
        let ghost len0 = self.tris@.len();
        let mut c: usize = 0;
        while c < cavity.len()
            invariant
                self.wf(),
                c <= cavity@.len(),
                self.tris@ == tris0,
                self.tris@.len() == len0,
                self.n == old(self).n,
                mark@.len() == len0,
                self.alive@.len() == len0,
                free@ == free0 + cavity@.take(c as int),
                forall|k: int| 0 <= k < cavity@.len() ==> (#[trigger] cavity@[k]) < len0,
                forall|t: int|
                    0 <= t < len0 ==> #[trigger] self.alive@[t] == (alive0[t] && !cavity@.take(c as int).contains(
                        t as usize,
                    )),
            decreases cavity@.len() - c,
        {
            let t = cavity[c];
            self.alive.set(t, false);
            free.push(t);
            proof {
                assert(cavity@.take(c + 1) =~= cavity@.take(c as int).push(t));
                assert forall|t2: int| 0 <= t2 < len0 implies #[trigger] self.alive@[t2] == (alive0[t2]
                    && !cavity@.take(c + 1).contains(t2 as usize)) by {
                    if t2 == t as int {
                        assert(cavity@.take(c + 1)[c as int] == t);
                    } else if cavity@.take(c + 1).contains(t2 as usize) {
                        let k = choose|k: int| 0 <= k < c + 1 && #[trigger] cavity@.take(c + 1)[k] == t2 as usize;
                        assert(cavity@.take(c as int)[k] == t2 as usize);
                    }
                }
            }
            c += 1;
        }
        proof {
            assert(cavity@.take(cavity@.len() as int) =~= cavity@);
        }
        let ghost free_mid = free@;
        let ghost alive_mid = self.alive@;
        proof {
            assert(free_mid.no_duplicates()) by {
                assert forall|a: int, b: int| 0 <= a < free_mid.len() && 0 <= b < free_mid.len() && a != b implies free_mid[a]
                    != free_mid[b] by {
                    let f0 = free0.len() as int;
                    if a < f0 && b < f0 {
                        assert(free0[a] != free0[b]);
                    } else if a >= f0 && b >= f0 {
                        assert(cavity@[a - f0] != cavity@[b - f0]);
                    } else if a < f0 {
                        assert(!alive0[free0[a] as int]);
                        assert(alive0[cavity@[b - f0] as int]);
                    } else {
                        assert(!alive0[free0[b] as int]);
                        assert(alive0[cavity@[a - f0] as int]);
                    }
                }
            }
            assert forall|k: int| 0 <= k < free_mid.len() implies (#[trigger] free_mid[k]) < len0 && !alive_mid[free_mid[k] as int] by {
                let f0 = free0.len() as int;
                if k < f0 {
                    assert(free_mid[k] == free0[k]);
                } else {
                    assert(free_mid[k] == cavity@[k - f0]);
                    assert(cavity@.contains(cavity@[k - f0]));
                }
            }
        }
        let mut edge_map: FxHashMap<[usize; 2], (usize, usize)> = FxHashMap::default();
        let mut last_new = start;
        let ghost mut ns: Seq<usize> = Seq::empty();
        let mut j: usize = 0;
        while j < boundary.len()
            invariant
                self.wf(),
                j <= boundary@.len(),
                self.n == old(self).n,
                mark@.len() == self.tris@.len(),
                self.tris@.len() >= len0,
                self.tris@.len() + (boundary@.len() - j) < NONE2,
                alive_mid.len() == len0,
                free@.len() <= free_mid.len(),
                free@ == free_mid.take(free@.len() as int),
                free_mid.no_duplicates(),
                forall|k: int| 0 <= k < free_mid.len() ==> (#[trigger] free_mid[k]) < len0 && !alive_mid[free_mid[k] as int],
                forall|t: int| 0 <= t < len0 && alive_mid[t] ==> #[trigger] self.tris@[t] == tris0[t],
                forall|t: int| 0 <= t < len0 && alive_mid[t] ==> #[trigger] self.alive@[t],
                forall|t: int| 0 <= t < len0 ==> (#[trigger] alive_mid[t] == (alive0[t] && !cavity@.contains(t as usize))),
                forall|j2: int|
                    0 <= j2 < boundary@.len() ==> (#[trigger] boundary@[j2]).2 == NONE2 || (boundary@[j2].2 < len0
                        && alive_mid[boundary@[j2].2 as int]),
                ns.len() == j,
                ns.no_duplicates(),
                forall|k: int|
                    0 <= k < j ==> {
                        let t = #[trigger] ns[k] as int;
                        &&& t < self.tris@.len()
                        &&& !(t < len0 && alive_mid[t])
                        &&& !free@.contains(t as usize)
                        &&& self.alive@[t]
                        &&& self.tris@[t] == [boundary@[k].0, boundary@[k].1, i]
                        &&& self.nbr@[t][0] == boundary@[k].2
                    },
                forall|t: int|
                    0 <= t < self.tris@.len() && #[trigger] self.alive@[t] ==> (t < len0 && alive_mid[t]) || ns.contains(
                        t as usize,
                    ),
                forall|key: [usize; 2]|
                    #[trigger] edge_map@.contains_key(key) ==> ns.contains(edge_map@[key].0) && 1 <= edge_map@[key].1 < 3,
                j == 0 ==> last_new == start,
                j > 0 ==> last_new == ns[j - 1],
            decreases boundary@.len() - j,
        {
            let (a, b, x) = boundary[j];
            let ghost pre = (self.tris@, self.nbr@, self.alive@, free@);
            proof {
                assert forall|t: int| 0 <= t < len0 && alive_mid[t] implies pre.0[t] == tris0[t] && pre.2[t] by {
                    assert(self.tris@[t] == tris0[t]);
                    assert(self.alive@[t]);
                }
            }
            let slot = self.fan_one(
                free,
                mark,
                &mut edge_map,
                i,
                a,
                b,
                x,
                Ghost(len0 as int),
                Ghost(alive_mid),
                Ghost(ns),
            );
            proof {
                if pre.3.len() > 0 {
                    assert(pre.3[pre.3.len() - 1] == slot);
                    assert(free_mid[pre.3.len() - 1] == slot);
                    assert(!free@.contains(slot)) by {
                        if free@.contains(slot) {
                            let k = choose|k: int| 0 <= k < free@.len() && free@[k] == slot;
                            assert(free_mid[k] == free_mid[pre.3.len() - 1]);
                        }
                    }
                    assert(free@ =~= free_mid.take(free@.len() as int));
                }
                assert forall|k: int| 0 <= k < j implies #[trigger] ns[k] != slot by {}
                assert forall|t: int| 0 <= t < len0 && alive_mid[t] implies #[trigger] self.tris@[t] == tris0[t]
                    && self.alive@[t] by {
                    assert(t != slot as int);
                    assert(pre.0[t] == tris0[t] && pre.2[t]);
                    if pre.3.len() > 0 {
                        assert(self.tris@ == pre.0.update(slot as int, [a, b, i]));
                        assert(self.alive@ == pre.2.update(slot as int, true));
                    } else {
                        assert(self.tris@ == pre.0.push([a, b, i]));
                        assert(self.alive@ == pre.2.push(true));
                    }
                }
            }
            last_new = slot;
            proof {
                let ns2 = ns.push(slot);
                assert forall|y: usize| ns2.contains(y) <==> ns.contains(y) || y == slot by {
                    if ns2.contains(y) {
                        let k = choose|k: int| 0 <= k < ns2.len() && ns2[k] == y;
                        if k < ns.len() {
                            assert(ns[k] == y);
                        }
                    }
                    if ns.contains(y) {
                        let k = choose|k: int| 0 <= k < ns.len() && ns[k] == y;
                        assert(ns2[k] == y);
                    }
                    if y == slot {
                        assert(ns2[ns.len() as int] == y);
                    }
                }
                assert(ns2.no_duplicates()) by {
                    assert forall|p: int, q: int| 0 <= p < ns2.len() && 0 <= q < ns2.len() && p != q implies ns2[p] != ns2[q] by {
                        if p < ns.len() && q < ns.len() {
                            assert(ns[p] != ns[q]);
                        }
                    }
                }
                ns = ns2;
            }
            j += 1;
        }
        proof {
            assert forall|j2: int| 0 <= j2 < boundary@.len() implies exists|t: int|
                0 <= t < self.tris@.len() && self.alive@[t] && self.tris@[t] == [
                    (#[trigger] boundary@[j2]).0,
                    boundary@[j2].1,
                    i,
                ] && self.nbr@[t][0] == boundary@[j2].2 by {
                let t = ns[j2] as int;
                assert(self.tris@[t] == [boundary@[j2].0, boundary@[j2].1, i]);
            }
            assert forall|t: int|
                0 <= t < old(self).tris@.len() && old(self).alive@[t] && !cavity@.contains(t as usize) implies #[trigger] self.tris@[t]
                    == old(self).tris@[t] by {
                assert(alive_mid[t]);
                assert(self.tris@[t] == tris0[t]);
            }
            assert forall|t: int|
                0 <= t < old(self).tris@.len() && old(self).alive@[t] && !cavity@.contains(t as usize) implies #[trigger] self.alive@[t] by {
                assert(alive_mid[t]);
            }
            assert forall|c: int|
                0 <= c < cavity@.len() implies !self.alive@[#[trigger] cavity@[c] as int] || exists|j2: int|
                    0 <= j2 < boundary@.len() && self.tris@[cavity@[c] as int] == [
                        #[trigger] boundary@[j2].0,
                        boundary@[j2].1,
                        i,
                    ] by {
                let t = cavity@[c] as int;
                if self.alive@[t] {
                    assert(cavity@.contains(cavity@[c]));
                    assert(!alive_mid[t]);
                    assert(ns.contains(t as usize));
                    let k = choose|k: int| 0 <= k < ns.len() && ns[k] == t as usize;
                    assert(self.tris@[t] == [boundary@[k].0, boundary@[k].1, i]);
                }
            }
            if boundary@.len() > 0 {
                assert(last_new == ns[boundary@.len() - 1]);
            }
        }
        last_new
    }

}

/// Segment `(a, b)` properly crosses edge `e` of triangle `t`.
pub open spec fn crosses_edge<F: Fn(usize, usize, usize) -> Sign>(
    o: F,
    tris: Seq<[usize; 3]>,
    a: usize,
    b: usize,
    t: usize,
    e: int,
) -> bool {
    proper_cross_by(o, a, b, tris[t as int][e], tris[t as int][next3(e)])
}

/// A walk of crossed edges from `a`: each entry an edge of a triangle
/// that segment `(a, b)` properly crosses, the first in a live triangle
/// at `a` (its apex), each next one in the triangle across the previous.
pub open spec fn is_crossing_walk<F: Fn(usize, usize, usize) -> Sign>(
    o: F,
    tris: Seq<[usize; 3]>,
    nbr: Seq<[usize; 3]>,
    alive: Seq<bool>,
    a: usize,
    b: usize,
    out: Seq<(usize, usize)>,
) -> bool {
    &&& forall|k: int|
        0 <= k < out.len() ==> (#[trigger] out[k]).0 < tris.len() && out[k].1 < 3 && crosses_edge(
            o,
            tris,
            a,
            b,
            out[k].0,
            out[k].1 as int,
        )
    &&& out.len() > 0 ==> alive[out[0].0 as int] && tris[out[0].0 as int][prev3(out[0].1 as int)] == a
    &&& forall|k: int| 0 < k < out.len() ==> (#[trigger] out[k]).0 == nbr[out[k - 1].0 as int][out[k - 1].1 as int]
}

/// The first slot of `tri` holding `a`, or `3` when none does.
pub open spec fn slot_of(tri: [usize; 3], a: usize) -> int {
    if tri[0] == a {
        0
    } else if tri[1] == a {
        1
    } else if tri[2] == a {
        2
    } else {
        3
    }
}

/// Live triangle `t` has corner `a`, and segment `(a, b)` properly crosses
/// the edge opposite that corner: a triangle the crossing walk may start in.
#[verifier::opaque]
pub open spec fn walk_starts_at<F: Fn(usize, usize, usize) -> Sign>(
    o: F,
    tris: Seq<[usize; 3]>,
    alive: Seq<bool>,
    a: usize,
    b: usize,
    t: int,
) -> bool {
    &&& alive[t]
    &&& slot_of(tris[t], a) < 3
    &&& crosses_edge(o, tris, a, b, t as usize, next3(slot_of(tris[t], a)))
}

/// The walk stops at crossed edge `(t, e)`: no triangle lies across it, or
/// the triangle across it has corner `b`.
pub open spec fn walk_ends(tris: Seq<[usize; 3]>, nbr: Seq<[usize; 3]>, b: usize, t: usize, e: usize) -> bool {
    let nn = nbr[t as int][e as int];
    nn == NONE2 || tris[nn as int][0] == b || tris[nn as int][1] == b || tris[nn as int][2] == b
}

/// The slot of the edge through which segment `(a, b)` leaves the triangle
/// across crossed edge `(t, e)`: the edge from the entry edge's head to the
/// apex if the segment crosses it, else the edge from the apex to the entry
/// edge's tail if it crosses that; `None` when it crosses neither (it runs
/// through the apex) or the triangle across does not hold the entry edge
/// reversed.
#[verifier::opaque]
pub open spec fn walk_exit<F: Fn(usize, usize, usize) -> Sign>(
    o: F,
    tris: Seq<[usize; 3]>,
    nbr: Seq<[usize; 3]>,
    a: usize,
    b: usize,
    t: usize,
    e: usize,
) -> Option<usize> {
    let nn = nbr[t as int][e as int];
    let p = tris[t as int][e as int];
    let q = tris[t as int][next3(e as int)];
    match edge_slot_of(tris[nn as int], q, p) {
        Some(f) => {
            let r = tris[nn as int][prev3(f)];
            if proper_cross_by(o, a, b, p, r) {
                Some(next3(f) as usize)
            } else if proper_cross_by(o, a, b, r, q) {
                Some(prev3(f) as usize)
            } else {
                None
            }
        },
        None => None,
    }
}

/// `w` is the crossing walk from `a` so far: it starts in the first
/// triangle (by slot) where the walk may start, and each next crossed edge
/// is the exit of the previous one, which did not stop the walk.
#[verifier::opaque]
pub open spec fn walk_prefix<F: Fn(usize, usize, usize) -> Sign>(
    o: F,
    tris: Seq<[usize; 3]>,
    nbr: Seq<[usize; 3]>,
    alive: Seq<bool>,
    a: usize,
    b: usize,
    w: Seq<(usize, usize)>,
) -> bool {
    &&& w.len() > 0
    &&& is_crossing_walk(o, tris, nbr, alive, a, b, w)
    &&& walk_starts_at(o, tris, alive, a, b, w[0].0 as int)
    &&& w[0].1 == next3(slot_of(tris[w[0].0 as int], a))
    &&& forall|t: int| 0 <= t < w[0].0 ==> !walk_starts_at(o, tris, alive, a, b, t)
    &&& forall|k: int|
        0 <= k < w.len() - 1 ==> !#[trigger] walk_ends(tris, nbr, b, w[k].0, w[k].1) && walk_exit(
            o,
            tris,
            nbr,
            a,
            b,
            w[k].0,
            w[k].1,
        ) == Some(w[k + 1].1)
}

/// Extending the crossing walk by the next crossed edge keeps it the walk.
#[verifier::spinoff_prover]
proof fn lemma_walk_push<F: Fn(usize, usize, usize) -> Sign>(
    o: F,
    tris: Seq<[usize; 3]>,
    nbr: Seq<[usize; 3]>,
    alive: Seq<bool>,
    a: usize,
    b: usize,
    before: Seq<(usize, usize)>,
    t: usize,
    e: usize,
)
    requires
        t < tris.len(),
        e < 3,
        crosses_edge(o, tris, a, b, t, e as int),
        is_crossing_walk(o, tris, nbr, alive, a, b, before),
        before.len() == 0 ==> alive[t as int] && tris[t as int][prev3(e as int)] == a,
        before.len() > 0 ==> t == nbr[before.last().0 as int][before.last().1 as int],
        before.len() == 0 ==> walk_starts_at(o, tris, alive, a, b, t as int) && e == next3(slot_of(tris[t as int], a))
            && forall|t2: int| 0 <= t2 < t ==> !#[trigger] walk_starts_at(o, tris, alive, a, b, t2),
        before.len() > 0 ==> walk_prefix(o, tris, nbr, alive, a, b, before) && !walk_ends(
            tris,
            nbr,
            b,
            before.last().0,
            before.last().1,
        ) && walk_exit(o, tris, nbr, a, b, before.last().0, before.last().1) == Some(e),
    ensures
        is_crossing_walk(o, tris, nbr, alive, a, b, before.push((t, e))),
        walk_prefix(o, tris, nbr, alive, a, b, before.push((t, e))),
{
    reveal(walk_prefix);
    let out = before.push((t, e));
    assert forall|k: int| 0 < k < out.len() implies (#[trigger] out[k]).0 == nbr[out[k - 1].0 as int][out[k
        - 1].1 as int] by {
        if k < before.len() {
            assert(out[k] == before[k]);
            assert(out[k - 1] == before[k - 1]);
        } else {
            assert(out[k - 1] == before.last());
        }
    }
    assert forall|k: int| 0 <= k < out.len() implies (#[trigger] out[k]).0 < tris.len() && out[k].1 < 3
        && crosses_edge(o, tris, a, b, out[k].0, out[k].1 as int) by {
        if k < before.len() {
            assert(out[k] == before[k]);
        }
    }
    if before.len() > 0 {
        assert(out[0] == before[0]);
        assert forall|k: int| 0 <= k < out.len() - 1 implies !#[trigger] walk_ends(
            tris,
            nbr,
            b,
            out[k].0,
            out[k].1,
        ) && walk_exit(o, tris, nbr, a, b, out[k].0, out[k].1) == Some(out[k + 1].1) by {
            assert(out[k] == before[k]);
            if k + 1 < before.len() {
                assert(out[k + 1] == before[k + 1]);
            } else {
                assert(before[k] == before.last());
            }
        }
    }
}

impl Cdt {
    /// Collects the interior edges `(t, e)` that segment `(a, b)` properly
    /// crosses, walking triangles from `a` toward `b`. Returns `None` if no
    /// triangle at `a` has its far edge crossed, if the segment runs
    /// through a vertex (the caller then splits the constraint there), or
    /// if the walk revisits more triangles than the triangulation holds.
    pub fn crossing_edges<F: Fn(usize, usize, usize) -> Sign>(&self, o: &F, a: usize, b: usize) -> (r: Option<
        Vec<(usize, usize)>,
    >)
        requires
            self.wf(),
            is_orient2_oracle(*o),
        ensures
            r matches Some(out) ==> out@.len() > 0 && out@.len() <= self.tris@.len() && is_crossing_walk(
                *o,
                self.tris@,
                self.nbr@,
                self.alive@,
                a,
                b,
                out@,
            ),
            r matches Some(out) ==> walk_prefix(*o, self.tris@, self.nbr@, self.alive@, a, b, out@) && walk_ends(
                self.tris@,
                self.nbr@,
                b,
                out@.last().0,
                out@.last().1,
            ),
            r is None ==> (forall|t: int|
                0 <= t < self.tris@.len() ==> !#[trigger] walk_starts_at(*o, self.tris@, self.alive@, a, b, t))
                || exists|w: Seq<(usize, usize)>|
                #![trigger walk_prefix(*o, self.tris@, self.nbr@, self.alive@, a, b, w)]
                walk_prefix(*o, self.tris@, self.nbr@, self.alive@, a, b, w) && !walk_ends(
                    self.tris@,
                    self.nbr@,
                    b,
                    w.last().0,
                    w.last().1,
                ) && (walk_exit(*o, self.tris@, self.nbr@, a, b, w.last().0, w.last().1) is None || w.len()
                    >= self.tris@.len()),
    {
        let mut start: Option<(usize, usize)> = None;
        let mut t0: usize = 0;
        while t0 < self.tris.len() && start.is_none()
            invariant
                self.wf(),
                is_orient2_oracle(*o),
                t0 <= self.tris@.len(),
                start matches Some(s) ==> s.0 < self.tris@.len() && s.1 < 3 && self.alive@[s.0 as int] && self.tris@[s.0 as int][prev3(
                    s.1 as int,
                )] == a && crosses_edge(*o, self.tris@, a, b, s.0, s.1 as int),
                start is None ==> forall|t: int| 0 <= t < t0 ==> !#[trigger] walk_starts_at(*o, self.tris@, self.alive@, a, b, t),
                start matches Some(s) ==> walk_starts_at(*o, self.tris@, self.alive@, a, b, s.0 as int) && s.1 == next3(
                    slot_of(self.tris@[s.0 as int], a),
                ) && forall|t: int| 0 <= t < s.0 ==> !#[trigger] walk_starts_at(*o, self.tris@, self.alive@, a, b, t),
            decreases self.tris@.len() - t0,
        {
            proof {
                reveal(walk_starts_at);
            }
            if self.alive[t0] {
                let tv = self.tris[t0];
                let k: usize = if tv[0] == a {
                    0
                } else if tv[1] == a {
                    1
                } else if tv[2] == a {
                    2
                } else {
                    3
                };
                if k < 3 {
                    let k1 = if k == 2 { 0 } else { k + 1 };
                    let k2 = if k1 == 2 { 0 } else { k1 + 1 };
                    if proper_cross(o, a, b, tv[k1], tv[k2]) {
                        start = Some((t0, k1));
                    }
                }
            }
            t0 += 1;
        }
        let (mut t, mut e) = match start {
            Some(s) => s,
            None => {
                return None;
            },
        };
        let mut out: Vec<(usize, usize)> = Vec::new();
        let mut steps: usize = 0;
        loop
            invariant
                self.wf(),
                is_orient2_oracle(*o),
                t < self.tris@.len(),
                e < 3,
                steps <= self.tris@.len(),
                out@.len() == steps,
                crosses_edge(*o, self.tris@, a, b, t, e as int),
                out@.len() == 0 ==> self.alive@[t as int] && self.tris@[t as int][prev3(e as int)] == a,
                out@.len() > 0 ==> t == self.nbr@[out@.last().0 as int][out@.last().1 as int],
                is_crossing_walk(*o, self.tris@, self.nbr@, self.alive@, a, b, out@),
                out@.len() == 0 ==> walk_starts_at(*o, self.tris@, self.alive@, a, b, t as int) && e == next3(
                    slot_of(self.tris@[t as int], a),
                ) && forall|t2: int| 0 <= t2 < t ==> !#[trigger] walk_starts_at(*o, self.tris@, self.alive@, a, b, t2),
                out@.len() > 0 ==> walk_prefix(*o, self.tris@, self.nbr@, self.alive@, a, b, out@) && !walk_ends(
                    self.tris@,
                    self.nbr@,
                    b,
                    out@.last().0,
                    out@.last().1,
                ) && walk_exit(*o, self.tris@, self.nbr@, a, b, out@.last().0, out@.last().1) == Some(e),
            decreases self.tris@.len() - steps,
        {
            if steps >= self.tris.len() {
                proof {
                    assert(walk_prefix(*o, self.tris@, self.nbr@, self.alive@, a, b, out@));
                }
                return None;
            }
            steps += 1;
            let ghost before = out@;
            out.push((t, e));
            proof {
                lemma_walk_push(*o, self.tris@, self.nbr@, self.alive@, a, b, before, t, e);
                assert(out@ == before.push((t, e)));
            }
            let nn = self.nbr[t][e];
            if nn == NONE2 {
                return Some(out);
            }
            let tv = self.tris[nn];
            if tv[0] == b || tv[1] == b || tv[2] == b {
                return Some(out);
            }
            let p = self.tris[t][e];
            let q = self.tris[t][if e == 2 { 0 } else { e + 1 }];
            let f = match self.edge_slot(nn, q, p) {
                Some(f) => f,
                None => {
                    proof {
                        reveal(walk_exit);
                        assert(walk_exit(*o, self.tris@, self.nbr@, a, b, t, e) is None);
                    }
                    return None;
                },
            };
            let f1 = if f == 2 { 0 } else { f + 1 };
            let f2 = if f == 0 { 2 } else { f - 1 };
            let r = tv[f2];
            let ghost (t_in, e_in) = (t, e);
            if proper_cross(o, a, b, p, r) {
                e = f1;
            } else if proper_cross(o, a, b, r, q) {
                e = f2;
            } else {
                proof {
                    reveal(walk_exit);
                    assert(walk_exit(*o, self.tris@, self.nbr@, a, b, t, e) is None);
                }
                return None;
            }
            proof {
                reveal(walk_exit);
                assert(walk_exit(*o, self.tris@, self.nbr@, a, b, t_in, e_in) == Some(e));
                assert(out@.last() == (t_in, e_in));
            }
            t = nn;
        }
    }
}

/// The undirected key `[min, max]` of `{u, v}`.
pub open spec fn ukey(u: usize, v: usize) -> [usize; 2] {
    if u <= v {
        [u, v]
    } else {
        [v, u]
    }
}

/// The in-circle question the Delaunay repair asks at edge `e` of `t`:
/// the edge's ends, the apex of `t` and the apex across the edge.
pub open spec fn incircle_args(tris: Seq<[usize; 3]>, nbr: Seq<[usize; 3]>, t: int, e: int) -> (usize, usize, usize, usize) {
    let nn = nbr[t][e];
    let u = tris[t][e];
    let v = tris[t][next3(e)];
    let f = match edge_slot_of(tris[nn as int], v, u) {
        Some(f) => f,
        None => 0,
    };
    (u, v, tris[t][prev3(e)], tris[nn as int][prev3(f)])
}

/// Edge `e` of triangle `t` needs no Delaunay flip: `t` is dead, the edge
/// is a constraint, no live triangle holds it reversed across, the
/// in-circle oracle answered no for it, or it is not flippable.
pub open spec fn edge_settled<F: Fn(usize, usize, usize) -> Sign, H: Fn(usize, usize, usize, usize) -> bool>(
    o: F,
    h: H,
    constraints: Set<[usize; 2]>,
    tris: Seq<[usize; 3]>,
    nbr: Seq<[usize; 3]>,
    alive: Seq<bool>,
    t: int,
    e: int,
) -> bool {
    let nn = nbr[t][e];
    ||| !alive[t]
    ||| constraints.contains(ukey(tris[t][e], tris[t][next3(e)]))
    ||| nn == NONE2
    ||| !alive[nn as int]
    ||| edge_slot_of(tris[nn as int], tris[t][next3(e)], tris[t][e]) is None
    ||| call_ensures(h, incircle_args(tris, nbr, t, e), false)
    ||| !flippable_by(o, tris, nbr, t, e)
}

/// One Delaunay repair flip: a flippable, non-constraint edge of a live
/// triangle, for which the in-circle oracle answered yes.
pub open spec fn delaunay_flip_step<F: Fn(usize, usize, usize) -> Sign, H: Fn(usize, usize, usize, usize) -> bool>(
    o: F,
    h: H,
    constraints: Set<[usize; 2]>,
    alive: Seq<bool>,
    tris1: Seq<[usize; 3]>,
    nbr1: Seq<[usize; 3]>,
    tris2: Seq<[usize; 3]>,
    nbr2: Seq<[usize; 3]>,
) -> bool {
    exists|t: int, e: int|
        #![trigger flip_result(tris1, nbr1, t, e)]
        0 <= t < tris1.len() && 0 <= e < 3 && alive[t] && !constraints.contains(ukey(tris1[t][e], tris1[t][next3(e)]))
            && flippable_by(o, tris1, nbr1, t, e) && call_ensures(h, incircle_args(tris1, nbr1, t, e), true) && (
        tris2,
        nbr2,
    ) == flip_result(tris1, nbr1, t, e)
}

/// `run` is a run of repair flips: its first state is `(tris0, nbr0)`
/// and each next state comes from the one before by a repair flip.
pub open spec fn delaunay_run<F: Fn(usize, usize, usize) -> Sign, H: Fn(usize, usize, usize, usize) -> bool>(
    o: F,
    h: H,
    constraints: Set<[usize; 2]>,
    alive: Seq<bool>,
    tris0: Seq<[usize; 3]>,
    nbr0: Seq<[usize; 3]>,
    run: Seq<(Seq<[usize; 3]>, Seq<[usize; 3]>)>,
) -> bool {
    &&& run.len() > 0
    &&& run[0] == (tris0, nbr0)
    &&& forall|i: int|
        0 <= i < run.len() - 1 ==> #[trigger] delaunay_flip_step(
            o,
            h,
            constraints,
            alive,
            run[i].0,
            run[i].1,
            run[i + 1].0,
            run[i + 1].1,
        )
}

/// One flip of segment recovery: a flippable edge of a live triangle that
/// segment `(a, b)` properly crosses.
pub open spec fn crossing_flip_step<F: Fn(usize, usize, usize) -> Sign>(
    o: F,
    a: usize,
    b: usize,
    alive: Seq<bool>,
    tris1: Seq<[usize; 3]>,
    nbr1: Seq<[usize; 3]>,
    tris2: Seq<[usize; 3]>,
    nbr2: Seq<[usize; 3]>,
) -> bool {
    exists|t: int, e: int|
        #![trigger flip_result(tris1, nbr1, t, e)]
        0 <= t < tris1.len() && 0 <= e < 3 && alive[t] && proper_cross_by(o, a, b, tris1[t][e], tris1[t][next3(e)])
            && flippable_by(o, tris1, nbr1, t, e) && (tris2, nbr2) == flip_result(tris1, nbr1, t, e)
}

/// `run` is a run of segment-recovery flips from `(tris0, nbr0)`.
pub open spec fn crossing_run<F: Fn(usize, usize, usize) -> Sign>(
    o: F,
    a: usize,
    b: usize,
    alive: Seq<bool>,
    tris0: Seq<[usize; 3]>,
    nbr0: Seq<[usize; 3]>,
    run: Seq<(Seq<[usize; 3]>, Seq<[usize; 3]>)>,
) -> bool {
    &&& run.len() > 0
    &&& run[0] == (tris0, nbr0)
    &&& forall|i: int|
        0 <= i < run.len() - 1 ==> #[trigger] crossing_flip_step(
            o,
            a,
            b,
            alive,
            run[i].0,
            run[i].1,
            run[i + 1].0,
            run[i + 1].1,
        )
}

/// Edge `e` of live triangle `t` is crossed by segment `(a, b)` and can be
/// flipped: the first queued edge in this state is flipped first.
pub open spec fn flips_first<F: Fn(usize, usize, usize) -> Sign>(
    o: F,
    a: usize,
    b: usize,
    tris: Seq<[usize; 3]>,
    nbr: Seq<[usize; 3]>,
    alive: Seq<bool>,
    t: int,
    e: int,
) -> bool {
    alive[t] && proper_cross_by(o, a, b, tris[t][e], tris[t][next3(e)]) && flippable_by(o, tris, nbr, t, e)
}

/// Edge `e` of slot `t` is open for segment `(a, b)`: `t` is live, the
/// edge has a neighbor across it, and the segment properly crosses it.
pub open spec fn open_crossing<F: Fn(usize, usize, usize) -> Sign>(
    o: F,
    a: usize,
    b: usize,
    tris: Seq<[usize; 3]>,
    nbr: Seq<[usize; 3]>,
    alive: Seq<bool>,
    t: int,
    e: int,
) -> bool {
    alive[t] && nbr[t][e] != NONE2 && proper_cross_by(o, a, b, tris[t][e], tris[t][next3(e)])
}

/// `steps` are the flips of `run`: state `i + 1` is state `i` with edge
/// `steps[i].1` of slot `steps[i].0` flipped.
pub open spec fn flips_recorded(run: Seq<(Seq<[usize; 3]>, Seq<[usize; 3]>)>, steps: Seq<(usize, usize)>) -> bool {
    &&& steps.len() + 1 == run.len()
    &&& forall|i: int|
        0 <= i < steps.len() ==> run[i + 1] == flip_result(run[i].0, run[i].1, (#[trigger] steps[i]).0 as int, steps[i].1 as int)
}

/// Flip `i` of `steps` rescans slot `s`: `s` is the flipped slot, or the
/// slot the flipped slot names across its last edge afterwards.
pub open spec fn rescans(run: Seq<(Seq<[usize; 3]>, Seq<[usize; 3]>)>, steps: Seq<(usize, usize)>, i: int, s: int) -> bool {
    steps[i].0 == s || run[i + 1].1[steps[i].0 as int][2] == s
}

/// After every flip of `steps` the flipped slot names, across its last
/// edge, the slot it was flipped with (so both rewritten slots are
/// rescanned).
pub open spec fn partners_rescanned(run: Seq<(Seq<[usize; 3]>, Seq<[usize; 3]>)>, steps: Seq<(usize, usize)>) -> bool {
    forall|i: int|
        0 <= i < steps.len() ==> run[i + 1].1[(#[trigger] steps[i]).0 as int][2] == run[i].1[steps[i].0 as int][steps[i].1 as int]
}

/// Edge `e` of slot `t` is watched by the crossing flips: it is one of the
/// listed `crossing` edges, or its slot was rescanned after a flip.
pub open spec fn watched(
    crossing: Seq<(usize, usize)>,
    run: Seq<(Seq<[usize; 3]>, Seq<[usize; 3]>)>,
    steps: Seq<(usize, usize)>,
    t: int,
    e: int,
) -> bool {
    crossing.contains((t as usize, e as usize)) || exists|i: int| 0 <= i < steps.len() && #[trigger] rescans(run, steps, i, t)
}

/// A flip leaves every other slot's triangle as it was, and whether its
/// edges have a neighbor across.
proof fn lemma_flip_elsewhere(tris: Seq<[usize; 3]>, nbr: Seq<[usize; 3]>, t: int, e: int, s: int, x: int)
    requires
        0 <= t < tris.len(),
        t < NONE2,
        nbr.len() == tris.len(),
        0 <= e < 3,
        0 <= x < 3,
        nbr[t][e] != NONE2,
        nbr[t][e] < tris.len(),
        forall|t2: int, e2: int|
            #![trigger nbr[t2][e2]]
            0 <= t2 < tris.len() && 0 <= e2 < 3 ==> nbr[t2][e2] == NONE2 || nbr[t2][e2] < tris.len(),
        edge_slot_of(tris[nbr[t][e] as int], tris[t][next3(e)], tris[t][e]) is Some,
        0 <= s < tris.len(),
        s != t,
        s != nbr[t][e],
    ensures
        flip_result(tris, nbr, t, e).0[s] == tris[s],
        flip_result(tris, nbr, t, e).1[s][x] == NONE2 <==> nbr[s][x] == NONE2,
{
    let nn = nbr[t][e];
    let p = tris[t][e];
    let q = tris[t][next3(e)];
    let f = edge_slot_of(tris[nn as int], q, p)->0;
    let n_qx = nbr[t][next3(e)];
    let n_py = nbr[nn as int][next3(f)];
    let n_xp = nbr[t][prev3(e)];
    let n_yq = nbr[nn as int][prev3(f)];
    let nbr2 = nbr.update(t, [n_xp, n_py, nn]).update(nn as int, [t as usize, n_yq, n_qx]);
    assert(nbr2[s] == nbr[s]);
    let m1 = relinked(nbr2, n_qx, t as usize, nn);
    let m2 = relinked(m1, n_py, nn, t as usize);
    assert(n_qx == NONE2 || n_qx < tris.len());
    assert(n_py == NONE2 || n_py < tris.len());
    assert(m1[s][x] == NONE2 <==> nbr[s][x] == NONE2) by {
        if n_qx != NONE2 && n_qx as int == s {
            assert(m1[s] == replace_all(nbr2[s], t as usize, nn));
        }
    }
    assert(m2[s][x] == NONE2 <==> m1[s][x] == NONE2) by {
        if n_py != NONE2 && n_py as int == s {
            assert(m2[s] == replace_all(m1[s], nn, t as usize));
        }
    }
}

/// The number of live slots among the first `n`.
pub open spec fn live_upto(alive: Seq<bool>, n: int) -> nat
    decreases n,
{
    if n <= 0 {
        0
    } else {
        live_upto(alive, n - 1) + if alive[n - 1] {
            1nat
        } else {
            0nat
        }
    }
}

/// Slot `cav[k]` lies across an edge of an earlier slot of `cav`.
pub open spec fn reached_from(nbr: Seq<[usize; 3]>, cav: Seq<usize>, k: int) -> bool {
    exists|j: int, e: int| 0 <= j < k && 0 <= e < 3 && #[trigger] nbr[cav[j] as int][e] == cav[k]
}

/// Every slot of `cav` after the first lies across an edge of an earlier
/// one, so all of them are reached from the first through `cav`.
pub open spec fn grown_in(nbr: Seq<[usize; 3]>, cav: Seq<usize>) -> bool {
    forall|k: int| 0 < k < cav.len() ==> #[trigger] reached_from(nbr, cav, k)
}

/// Appending a slot across an edge of a slot of `cav` keeps it grown.
proof fn lemma_grown_push(nbr: Seq<[usize; 3]>, cav: Seq<usize>, j: int, e: int, x: usize)
    requires
        grown_in(nbr, cav),
        0 <= j < cav.len(),
        0 <= e < 3,
        nbr[cav[j] as int][e] == x,
    ensures
        grown_in(nbr, cav.push(x)),
{
    let c2 = cav.push(x);
    assert forall|k: int| 0 < k < c2.len() implies #[trigger] reached_from(nbr, c2, k) by {
        if k < cav.len() {
            assert(reached_from(nbr, cav, k));
            let (j2, e2) = choose|j2: int, e2: int| 0 <= j2 < k && 0 <= e2 < 3 && #[trigger] nbr[cav[j2] as int][e2] == cav[k];
            assert(c2[j2] == cav[j2]);
            assert(c2[k] == cav[k]);
            assert(nbr[c2[j2] as int][e2] == c2[k]);
        } else {
            assert(c2[j] == cav[j]);
            assert(nbr[c2[j] as int][e] == c2[k]);
        }
    }
}

impl Cdt {
    /// Flips the crossed edges of segment `(a, b)` out of the way (Sloan
    /// 1993): edges taken from the queue `crossing` that still cross are
    /// flipped once their quad is convex (re-queued until then), and a new
    /// diagonal that still crosses is queued again (both rewritten slots are
    /// rescanned); gives up after `50` pops per queued edge plus `100`.
    /// Returns whether the queue drained before that: then no listed edge,
    /// and no edge of a rescanned slot, is still an open crossing.
    #[verifier::rlimit(50)]
    pub fn flip_crossings<F: Fn(usize, usize, usize) -> Sign>(
        &mut self,
        o: &F,
        a: usize,
        b: usize,
        crossing: Vec<(usize, usize)>,
    ) -> (drained: bool)
        requires
            old(self).wf(),
            is_orient2_oracle(*o),
            crossing@.len() * 50 + 100 <= usize::MAX,
            forall|k: int|
                0 <= k < crossing@.len() ==> (#[trigger] crossing@[k]).0 < old(self).tris@.len() && crossing@[k].1
                    < 3,
        ensures
            final(self).wf(),
            final(self).tris@.len() == old(self).tris@.len(),
            final(self).alive@ == old(self).alive@,
            final(self).n == old(self).n,
            exists|run: Seq<(Seq<[usize; 3]>, Seq<[usize; 3]>)>|
                #[trigger] crossing_run(*o, a, b, old(self).alive@, old(self).tris@, old(self).nbr@, run) && run.last() == (
                    final(self).tris@,
                    final(self).nbr@,
                ) && (crossing@.len() > 0 && flips_first(
                    *o,
                    a,
                    b,
                    old(self).tris@,
                    old(self).nbr@,
                    old(self).alive@,
                    crossing@[0].0 as int,
                    crossing@[0].1 as int,
                ) ==> run.len() > 1 && run[1] == flip_result(
                    old(self).tris@,
                    old(self).nbr@,
                    crossing@[0].0 as int,
                    crossing@[0].1 as int,
                )),
            exists|run: Seq<(Seq<[usize; 3]>, Seq<[usize; 3]>)>, steps: Seq<(usize, usize)>|
                #![trigger flips_recorded(run, steps)]
                crossing_run(*o, a, b, old(self).alive@, old(self).tris@, old(self).nbr@, run) && run.last() == (
                    final(self).tris@,
                    final(self).nbr@,
                ) && flips_recorded(run, steps) && (drained && partners_rescanned(run, steps) ==> forall|t: int, e: int|
                    0 <= t < final(self).tris@.len() && 0 <= e < 3 && #[trigger] watched(crossing@, run, steps, t, e)
                        ==> !open_crossing(*o, a, b, final(self).tris@, final(self).nbr@, final(self).alive@, t, e)),
    {
        broadcast use vstd::seq_lib::lemma_seq_contains_after_push;

        let mut queue: VecDeque<(usize, usize)> = VecDeque::new();
        let mut k: usize = 0;
        while k < crossing.len()
            invariant
                self == old(self),
                k <= crossing@.len(),
                queue@.len() == k,
                queue@ == crossing@.subrange(0, k as int),
                forall|m: int|
                    0 <= m < crossing@.len() ==> (#[trigger] crossing@[m]).0 < self.tris@.len() && crossing@[m].1
                        < 3,
                forall|m: int| 0 <= m < queue@.len() ==> (#[trigger] queue@[m]).0 < self.tris@.len() && queue@[m].1 < 3,
            decreases crossing@.len() - k,
        {
            queue.push_back(crossing[k]);
            k += 1;
        }
        let mut guard: usize = 0;
        let cap = queue.len() * 50 + 100;
        let ghost len0 = self.tris@.len();
        let ghost alive0 = self.alive@;
        let ghost tris0 = self.tris@;
        let ghost nbr0 = self.nbr@;
        let ghost mut run: Seq<(Seq<[usize; 3]>, Seq<[usize; 3]>)> = seq![(tris0, nbr0)];
        let ghost mut steps: Seq<(usize, usize)> = Seq::empty();
        let mut drained = false;
        let ghost first = crossing@.len() > 0 && flips_first(
            *o,
            a,
            b,
            tris0,
            nbr0,
            alive0,
            crossing@[0].0 as int,
            crossing@[0].1 as int,
        );
        proof {
            assert(queue@ =~= crossing@);
        }
        loop
            invariant_except_break
                !drained,
                partners_rescanned(run, steps) ==> forall|t2: int, e2: int|
                    0 <= t2 < len0 && 0 <= e2 < 3 && #[trigger] watched(crossing@, run, steps, t2, e2) && open_crossing(
                        *o,
                        a,
                        b,
                        self.tris@,
                        self.nbr@,
                        self.alive@,
                        t2,
                        e2,
                    ) ==> queue@.contains((t2 as usize, e2 as usize)),
            invariant
                self.wf(),
                is_orient2_oracle(*o),
                self.tris@.len() == len0,
                self.alive@ == alive0,
                self.n == old(self).n,
                guard <= cap,
                forall|m: int| 0 <= m < queue@.len() ==> (#[trigger] queue@[m]).0 < self.tris@.len() && queue@[m].1 < 3,
                cap >= 100,
                tris0 == old(self).tris@,
                nbr0 == old(self).nbr@,
                alive0 == old(self).alive@,
                crossing_run(*o, a, b, alive0, tris0, nbr0, run),
                run.last() == (self.tris@, self.nbr@),
                guard == 0 ==> run.len() == 1 && queue@ == crossing@,
                guard > 0 && first ==> run.len() > 1 && run[1] == flip_result(
                    tris0,
                    nbr0,
                    crossing@[0].0 as int,
                    crossing@[0].1 as int,
                ),
                first == (crossing@.len() > 0 && flips_first(
                    *o,
                    a,
                    b,
                    tris0,
                    nbr0,
                    alive0,
                    crossing@[0].0 as int,
                    crossing@[0].1 as int,
                )),
                flips_recorded(run, steps),
            ensures
                self.wf(),
                self.tris@.len() == len0,
                self.alive@ == alive0,
                self.n == old(self).n,
                crossing_run(*o, a, b, alive0, tris0, nbr0, run),
                run.last() == (self.tris@, self.nbr@),
                flips_recorded(run, steps),
                drained ==> (partners_rescanned(run, steps) ==> forall|t2: int, e2: int|
                    0 <= t2 < len0 && 0 <= e2 < 3 && #[trigger] watched(crossing@, run, steps, t2, e2) ==> !open_crossing(
                        *o,
                        a,
                        b,
                        self.tris@,
                        self.nbr@,
                        self.alive@,
                        t2,
                        e2,
                    )),
                first ==> run.len() > 1 && run[1] == flip_result(
                    tris0,
                    nbr0,
                    crossing@[0].0 as int,
                    crossing@[0].1 as int,
                ),
            decreases cap - guard,
        {
            let ghost qb = queue@;
            let popped = queue.pop_front();
            if popped.is_none() {
                drained = true;
                break;
            }
            let (t, e) = match popped {
                Some(entry) => entry,
                None => (0, 0),
            };
            let ghost cov = partners_rescanned(run, steps);
            proof {
                assert(cov ==> forall|t2: int, e2: int|
                    0 <= t2 < len0 && 0 <= e2 < 3 && #[trigger] watched(crossing@, run, steps, t2, e2) && open_crossing(
                        *o,
                        a,
                        b,
                        self.tris@,
                        self.nbr@,
                        self.alive@,
                        t2,
                        e2,
                    ) ==> qb.contains((t2 as usize, e2 as usize)));
                assert forall|y: (usize, usize)| qb.contains(y) && y != (t, e) implies #[trigger] queue@.contains(y) by {
                    let j = choose|j: int| 0 <= j < qb.len() && qb[j] == y;
                    assert(j != 0);
                    assert(queue@[j - 1] == y);
                }
            }
            if guard >= cap {
                break;
            }
            guard += 1;
            if !self.alive[t] || self.nbr[t][e] == NONE2 {
                proof {
                    assert(!open_crossing(*o, a, b, self.tris@, self.nbr@, self.alive@, t as int, e as int));
                }
                continue;
            }
            let p = self.tris[t][e];
            let q = self.tris[t][if e == 2 { 0 } else { e + 1 }];
            if !proper_cross(o, a, b, p, q) {
                proof {
                    assert(!open_crossing(*o, a, b, self.tris@, self.nbr@, self.alive@, t as int, e as int));
                }
                continue;
            }
            if !self.flippable(o, t, e) {
                let ghost qp = queue@;
                queue.push_back((t, e));
                proof {
                    assert forall|y: (usize, usize)| qb.contains(y) implies #[trigger] queue@.contains(y) by {
                        if y != (t, e) {
                            assert(qp.contains(y));
                            let j = choose|j: int| 0 <= j < qp.len() && qp[j] == y;
                            assert(queue@[j] == y);
                        } else {
                            assert(queue@[queue@.len() - 1] == y);
                        }
                    }
                }
                continue;
            }
            let ghost qr = queue@;
            let ghost steps0 = steps;
            let ghost nn = self.nbr@[t as int][e as int];
            let ghost tb = self.tris@;
            let ghost nb = self.nbr@;
            let ghost run_b = run;
            let ghost g_before = guard;
            self.flip(t, e);
            proof {
                assert(crossing_flip_step(*o, a, b, alive0, tb, nb, self.tris@, self.nbr@));
                let run0 = run;
                run = run.push((self.tris@, self.nbr@));
                steps = steps.push((t, e));
                assert forall|i: int| 0 <= i < steps.len() implies run[i + 1] == flip_result(
                    run[i].0,
                    run[i].1,
                    (#[trigger] steps[i]).0 as int,
                    steps[i].1 as int,
                ) by {
                    if i < steps0.len() {
                        assert(steps[i] == steps0[i]);
                        assert(run[i + 1] == run0[i + 1]);
                        assert(run[i] == run0[i]);
                    }
                }
                assert forall|i: int| 0 <= i < run.len() - 1 implies #[trigger] crossing_flip_step(
                    *o,
                    a,
                    b,
                    alive0,
                    run[i].0,
                    run[i].1,
                    run[i + 1].0,
                    run[i + 1].1,
                ) by {
                    assert(run[i] == run0[i]);
                    if i + 1 < run0.len() {
                        assert(run[i + 1] == run0[i + 1]);
                    }
                }
                if run0.len() > 1 {
                    assert(run[1] == run0[1]);
                }
            }
            let other = self.nbr[t][2];
            let mut si: usize = 0;
            while si < 2
                invariant
                    self.wf(),
                    is_orient2_oracle(*o),
                    self.tris@.len() == len0,
                    t < len0,
                    other == NONE2 || other < len0,
                    si <= 2,
                    forall|m: int| 0 <= m < queue@.len() ==> (#[trigger] queue@[m]).0 < self.tris@.len() && queue@[m].1 < 3,
                    crossing_run(*o, a, b, alive0, tris0, nbr0, run),
                    run.last() == (self.tris@, self.nbr@),
                    guard > 0 && first ==> run.len() > 1 && run[1] == flip_result(
                        tris0,
                        nbr0,
                        crossing@[0].0 as int,
                        crossing@[0].1 as int,
                    ),
                    self.alive@[t as int],
                    other == self.nbr@[t as int][2],
                    forall|y: (usize, usize)| qr.contains(y) ==> #[trigger] queue@.contains(y),
                    si >= 1 ==> forall|e3: int|
                        0 <= e3 < 3 && proper_cross_by(*o, a, b, self.tris@[t as int][e3], self.tris@[t as int][next3(e3)])
                            ==> #[trigger] queue@.contains((t, e3 as usize)),
                    si >= 2 && other != NONE2 ==> forall|e3: int|
                        0 <= e3 < 3 && self.alive@[other as int] && proper_cross_by(
                            *o,
                            a,
                            b,
                            self.tris@[other as int][e3],
                            self.tris@[other as int][next3(e3)],
                        ) ==> #[trigger] queue@.contains((other, e3 as usize)),
                decreases 2 - si,
            {
                let slot = if si == 0 { t } else { other };
                let ghost qs = queue@;
                if slot != NONE2 && self.alive[slot] {
                    let mut ee: usize = 0;
                    while ee < 3
                        invariant
                            self.wf(),
                            is_orient2_oracle(*o),
                            self.tris@.len() == len0,
                            slot < len0,
                            ee <= 3,
                            forall|m: int|
                                0 <= m < queue@.len() ==> (#[trigger] queue@[m]).0 < self.tris@.len() && queue@[m].1 < 3,
                            run.last() == (self.tris@, self.nbr@),
                            forall|y: (usize, usize)| qs.contains(y) ==> #[trigger] queue@.contains(y),
                            forall|e3: int|
                                0 <= e3 < ee && proper_cross_by(
                                    *o,
                                    a,
                                    b,
                                    self.tris@[slot as int][e3],
                                    self.tris@[slot as int][next3(e3)],
                                ) ==> #[trigger] queue@.contains((slot, e3 as usize)),
                        decreases 3 - ee,
                    {
                        let u = self.tris[slot][ee];
                        let v = self.tris[slot][if ee == 2 { 0 } else { ee + 1 }];
                        let ghost qe = queue@;
                        if proper_cross(o, a, b, u, v) {
                            queue.push_back((slot, ee));
                            proof {
                                assert forall|y: (usize, usize)| qe.contains(y) implies #[trigger] queue@.contains(y) by {
                                    let j = choose|j: int| 0 <= j < qe.len() && qe[j] == y;
                                    assert(queue@[j] == y);
                                }
                                assert(queue@[queue@.len() - 1] == (slot, ee));
                            }
                        }
                        ee += 1;
                    }
                }
                proof {
                    if si >= 1 {
                        assert forall|e3: int|
                            0 <= e3 < 3 && proper_cross_by(*o, a, b, self.tris@[t as int][e3], self.tris@[t as int][next3(e3)])
                                implies #[trigger] queue@.contains((t, e3 as usize)) by {
                            assert(qs.contains((t, e3 as usize)));
                        }
                    }
                }
                si += 1;
            }
            proof {
                if partners_rescanned(run, steps) {
                    let i_new = steps0.len() as int;
                    assert(steps[i_new] == (t, e));
                    assert(run[i_new + 1] == (self.tris@, self.nbr@));
                    assert(run[i_new] == run_b.last());
                    assert(run[i_new + 1].1[t as int][2] == run[i_new].1[t as int][e as int]);
                    assert(other == nn);
                    assert(partners_rescanned(run_b, steps0)) by {
                        assert forall|i: int| 0 <= i < steps0.len() implies run_b[i + 1].1[(#[trigger] steps0[i]).0 as int][2]
                            == run_b[i].1[steps0[i].0 as int][steps0[i].1 as int] by {
                            assert(steps[i] == steps0[i]);
                            assert(run[i + 1] == run_b[i + 1]);
                            assert(run[i] == run_b[i]);
                        }
                    }
                    assert forall|t2: int, e2: int|
                        0 <= t2 < len0 && 0 <= e2 < 3 && #[trigger] watched(crossing@, run, steps, t2, e2) && open_crossing(
                            *o,
                            a,
                            b,
                            self.tris@,
                            self.nbr@,
                            self.alive@,
                            t2,
                            e2,
                        ) implies queue@.contains((t2 as usize, e2 as usize)) by {
                        if t2 == t as int {
                            assert(queue@.contains((t, e2 as usize)));
                        } else if t2 == nn as int {
                            assert(queue@.contains((other, e2 as usize)));
                        } else {
                            lemma_flip_elsewhere(tb, nb, t as int, e as int, t2, e2);
                            assert(watched(crossing@, run_b, steps0, t2, e2)) by {
                                if !crossing@.contains((t2 as usize, e2 as usize)) {
                                    let i = choose|i: int| 0 <= i < steps.len() && #[trigger] rescans(run, steps, i, t2);
                                    if i < i_new {
                                        assert(steps[i] == steps0[i]);
                                        assert(run[i + 1] == run_b[i + 1]);
                                        assert(rescans(run_b, steps0, i, t2));
                                    }
                                }
                            }
                            assert(open_crossing(*o, a, b, tb, nb, alive0, t2, e2));
                            assert(qb.contains((t2 as usize, e2 as usize)));
                            assert(qr.contains((t2 as usize, e2 as usize)));
                        }
                    }
                }
            }
        }
        proof {
            assert(flips_recorded(run, steps));
        }
        drained
    }

    /// Restores the Delaunay property on non-constraint edges after
    /// constraint insertion: flips any locally non-Delaunay (per `incircle`,
    /// which says whether `(u, v, x)`'s circumcircle strictly contains the
    /// fourth vertex), flippable, non-constraint edge, pass after pass,
    /// until a pass flips nothing or the visits run out: each pass visits
    /// every live triangle once, and no pass starts after `40` visits per
    /// slot plus `200`. Returns the number of visits made.
    pub fn restore_delaunay<F: Fn(usize, usize, usize) -> Sign, H: Fn(usize, usize, usize, usize) -> bool>(
        &mut self,
        constraints: &FxHashSet<[usize; 2]>,
        incircle: &H,
        o: &F,
    ) -> (visits: usize)
        requires
            old(self).wf(),
            is_orient2_oracle(*o),
            forall|u: usize, v: usize, x: usize, y: usize| #[trigger] call_requires(*incircle, (u, v, x, y)),
            old(self).tris@.len() * 41 + 201 <= usize::MAX,
        ensures
            final(self).wf(),
            final(self).tris@.len() == old(self).tris@.len(),
            final(self).alive@ == old(self).alive@,
            final(self).n == old(self).n,
            live_tris_distinct(old(self).tris@, old(self).alive@) && flat_is_zero(*o) ==> live_tris_distinct(
                final(self).tris@,
                final(self).alive@,
            ) && constraints_kept(constraints@, old(self).tris@, old(self).alive@, final(self).tris@, final(self).alive@),
            exists|run: Seq<(Seq<[usize; 3]>, Seq<[usize; 3]>)>|
                #[trigger] delaunay_run(*o, *incircle, constraints@, old(self).alive@, old(self).tris@, old(self).nbr@, run)
                    && run.last() == (final(self).tris@, final(self).nbr@) && (run.len() > 40 || forall|t: int, e: int|
                    0 <= t < final(self).tris@.len() && 0 <= e < 3 ==> #[trigger] edge_settled(
                        *o,
                        *incircle,
                        constraints@,
                        final(self).tris@,
                        final(self).nbr@,
                        final(self).alive@,
                        t,
                        e,
                    )),
            visits < old(self).tris@.len() * 40 + 200 ==> forall|t: int, e: int|
                0 <= t < final(self).tris@.len() && 0 <= e < 3 ==> #[trigger] edge_settled(
                    *o,
                    *incircle,
                    constraints@,
                    final(self).tris@,
                    final(self).nbr@,
                    final(self).alive@,
                    t,
                    e,
                ),
            exists|run: Seq<(Seq<[usize; 3]>, Seq<[usize; 3]>)>|
                #[trigger] delaunay_run(*o, *incircle, constraints@, old(self).alive@, old(self).tris@, old(self).nbr@, run)
                    && run.last() == (final(self).tris@, final(self).nbr@) && visits <= run.len() * live_upto(
                    old(self).alive@,
                    old(self).tris@.len() as int,
                ),
    {
        let n_tris = self.tris.len();
        let mut changed = true;
        let mut guard: usize = 0;
        let cap = n_tris * 40 + 200;
        let ghost alive0 = self.alive@;
        let ghost tris0 = self.tris@;
        let ghost nbr0 = self.nbr@;
        let ghost mut run: Seq<(Seq<[usize; 3]>, Seq<[usize; 3]>)> = seq![(tris0, nbr0)];
        let ghost mut passes: nat = 0;
        proof {
            assert(constraints_kept(constraints@, tris0, alive0, self.tris@, self.alive@));
        }
        while changed && guard < cap
            invariant
                self.wf(),
                is_orient2_oracle(*o),
                forall|u: usize, v: usize, x: usize, y: usize| #[trigger] call_requires(*incircle, (u, v, x, y)),
                self.tris@.len() == n_tris,
                n_tris * 41 + 201 <= usize::MAX,
                cap == n_tris * 40 + 200,
                guard <= cap + n_tris,
                self.alive@ == alive0,
                        live_tris_distinct(tris0, alive0) && flat_is_zero(*o) ==> live_tris_distinct(self.tris@, self.alive@)
                            && constraints_kept(constraints@, tris0, alive0, self.tris@, self.alive@),
                self.n == old(self).n,
                delaunay_run(*o, *incircle, constraints@, alive0, tris0, nbr0, run),
                run.last() == (self.tris@, self.nbr@),
                guard <= passes * n_tris,
                guard == passes * live_upto(alive0, n_tris as int),
                run.len() >= passes,
                changed ==> run.len() > passes,
                !changed ==> forall|t2: int, e2: int|
                    0 <= t2 < n_tris && 0 <= e2 < 3 ==> #[trigger] edge_settled(
                        *o,
                        *incircle,
                        constraints@,
                        self.tris@,
                        self.nbr@,
                        self.alive@,
                        t2,
                        e2,
                    ),
            decreases (cap + n_tris + 1 - guard) * 2 + if changed { 1int } else { 0 },
        {
            changed = false;
            let ghost g0 = guard;
            let ghost flips_p = run.len();
            let ghost tris_p = self.tris@;
            let ghost nbr_p = self.nbr@;
            let mut t: usize = 0;
            while t < n_tris
                invariant
                    self.wf(),
                    is_orient2_oracle(*o),
                    forall|u: usize, v: usize, x: usize, y: usize| #[trigger] call_requires(*incircle, (u, v, x, y)),
                    self.tris@.len() == n_tris,
                    t <= n_tris,
                    g0 < cap,
                    cap == n_tris * 40 + 200,
                    n_tris * 41 + 201 <= usize::MAX,
                    g0 <= guard <= g0 + t,
                    guard == g0 + live_upto(alive0, t as int),
                    changed ==> guard > g0,
                    self.alive@ == alive0,
                        live_tris_distinct(tris0, alive0) && flat_is_zero(*o) ==> live_tris_distinct(self.tris@, self.alive@)
                            && constraints_kept(constraints@, tris0, alive0, self.tris@, self.alive@),
                    self.n == old(self).n,
                    delaunay_run(*o, *incircle, constraints@, alive0, tris0, nbr0, run),
                run.last() == (self.tris@, self.nbr@),
                    changed ==> run.len() > flips_p,
                    run.len() >= flips_p,
                    !changed ==> self.tris@ == tris_p && self.nbr@ == nbr_p,
                    !changed ==> forall|t2: int, e2: int|
                        0 <= t2 < t && 0 <= e2 < 3 ==> #[trigger] edge_settled(
                            *o,
                            *incircle,
                            constraints@,
                            self.tris@,
                            self.nbr@,
                            self.alive@,
                            t2,
                            e2,
                        ),
                decreases n_tris - t,
            {
                if !self.alive[t] {
                    proof {
                        assert forall|e2: int| 0 <= e2 < 3 implies #[trigger] edge_settled(
                            *o,
                            *incircle,
                            constraints@,
                            self.tris@,
                            self.nbr@,
                            self.alive@,
                            t as int,
                            e2,
                        ) by {}
                        assert(live_upto(alive0, t + 1) == live_upto(alive0, t as int));
                    }
                    t += 1;
                    continue;
                }
                let ghost g1 = guard;
                let mut e: usize = 0;
                while e < 3
                    invariant
                        self.wf(),
                        is_orient2_oracle(*o),
                        forall|u: usize, v: usize, x: usize, y: usize| #[trigger] call_requires(*incircle, (u, v, x, y)),
                        self.tris@.len() == n_tris,
                        t < n_tris,
                        self.alive@[t as int],
                        e <= 3,
                        guard == g1,
                        g0 <= g1 <= g0 + t,
                        g0 < cap,
                        cap == n_tris * 40 + 200,
                        n_tris * 41 + 201 <= usize::MAX,
                        self.alive@ == alive0,
                        live_tris_distinct(tris0, alive0) && flat_is_zero(*o) ==> live_tris_distinct(self.tris@, self.alive@)
                            && constraints_kept(constraints@, tris0, alive0, self.tris@, self.alive@),
                        self.n == old(self).n,
                        delaunay_run(*o, *incircle, constraints@, alive0, tris0, nbr0, run),
                run.last() == (self.tris@, self.nbr@),
                        changed ==> run.len() > flips_p,
                        run.len() >= flips_p,
                        !changed ==> self.tris@ == tris_p && self.nbr@ == nbr_p,
                        !changed ==> forall|t2: int, e2: int|
                            0 <= t2 < t && 0 <= e2 < 3 ==> #[trigger] edge_settled(
                                *o,
                                *incircle,
                                constraints@,
                                self.tris@,
                                self.nbr@,
                                self.alive@,
                                t2,
                                e2,
                            ),
                        !changed ==> forall|e2: int|
                            0 <= e2 < e ==> #[trigger] edge_settled(
                                *o,
                                *incircle,
                                constraints@,
                                self.tris@,
                                self.nbr@,
                                self.alive@,
                                t as int,
                                e2,
                            ),
                    decreases 3 - e,
                {
                    let u = self.tris[t][e];
                    let v = self.tris[t][if e == 2 { 0 } else { e + 1 }];
                    let key = if u <= v { [u, v] } else { [v, u] };
                    if fx_set_contains(constraints, &key) {
                        proof {
                            assert(key == ukey(u, v));
                            assert(edge_settled(*o, *incircle, constraints@, self.tris@, self.nbr@, self.alive@, t as int, e as int));
                        }
                        e += 1;
                        continue;
                    }
                    let nn = self.nbr[t][e];
                    if nn == NONE2 || !self.alive[nn] {
                        proof {
                            assert(edge_settled(*o, *incircle, constraints@, self.tris@, self.nbr@, self.alive@, t as int, e as int));
                        }
                        e += 1;
                        continue;
                    }
                    let f = match self.edge_slot(nn, v, u) {
                        Some(f) => f,
                        None => {
                            proof {
                                assert(edge_settled(*o, *incircle, constraints@, self.tris@, self.nbr@, self.alive@, t as int, e as int));
                            }
                            e += 1;
                            continue;
                        },
                    };
                    let apex = self.tris[nn][if f == 0 { 2 } else { f - 1 }];
                    let x = self.tris[t][if e == 0 { 2 } else { e - 1 }];
                    if !incircle(u, v, x, apex) {
                        proof {
                            assert(incircle_args(self.tris@, self.nbr@, t as int, e as int) == (u, v, x, apex));
                            assert(edge_settled(*o, *incircle, constraints@, self.tris@, self.nbr@, self.alive@, t as int, e as int));
                        }
                        e += 1;
                        continue;
                    }
                    if self.flippable(o, t, e) {
                        let ghost before = self.tris@;
                        let ghost nbefore = self.nbr@;
                        proof {
                            if live_tris_distinct(tris0, alive0) && flat_is_zero(*o) {
                                lemma_flip_keeps_distinct(*o, before, self.nbr@, self.alive@, t as int, e as int);
                                assert forall|c: [usize; 2]|
                                    constraints@.contains(c) && c[0] <= c[1] && has_edge_spec(tris0, alive0, c[0], c[1])
                                        implies has_edge_spec(flip_result(before, self.nbr@, t as int, e as int).0, alive0, c[0], c[1]) by {
                                    assert(has_edge_spec(before, alive0, c[0], c[1]));
                                    if (c[0] == u && c[1] == v) || (c[0] == v && c[1] == u) {
                                        assert(c =~= key);
                                    }
                                    lemma_flip_keeps_edges(before, self.nbr@, self.alive@, t as int, e as int, c[0], c[1]);
                                }
                            }
                        }
                        self.flip(t, e);
                        proof {
                            assert(incircle_args(before, nbefore, t as int, e as int) == (u, v, x, apex));
                            assert(delaunay_flip_step(*o, *incircle, constraints@, alive0, before, nbefore, self.tris@, self.nbr@));
                            let run0 = run;
                            run = run.push((self.tris@, self.nbr@));
                            assert forall|i: int| 0 <= i < run.len() - 1 implies #[trigger] delaunay_flip_step(
                                *o,
                                *incircle,
                                constraints@,
                                alive0,
                                run[i].0,
                                run[i].1,
                                run[i + 1].0,
                                run[i + 1].1,
                            ) by {
                                assert(run[i] == run0[i]);
                                if i + 1 < run0.len() {
                                    assert(run[i + 1] == run0[i + 1]);
                                }
                            }
                        }
                        changed = true;
                    } else {
                        proof {
                            assert(edge_settled(*o, *incircle, constraints@, self.tris@, self.nbr@, self.alive@, t as int, e as int));
                        }
                    }
                    e += 1;
                }
                proof {
                    assert(live_upto(alive0, t + 1) == live_upto(alive0, t as int) + 1);
                }
                guard += 1;
                t += 1;
            }
            proof {
                let p0 = passes;
                let lc = live_upto(alive0, n_tris as int);
                assert(guard == (p0 + 1) * lc) by (nonlinear_arith)
                    requires
                        guard == g0 + lc,
                        g0 == p0 * lc,
                ;
                passes = passes + 1;
                assert(guard <= passes * n_tris) by (nonlinear_arith)
                    requires
                        guard <= g0 + n_tris,
                        g0 <= (passes - 1) * n_tris,
                        passes >= 1,
                ;
            }
        }
        proof {
            if changed {
                assert(passes >= 41) by (nonlinear_arith)
                    requires
                        guard >= n_tris * 40 + 200,
                        guard <= passes * n_tris,
                ;
            }
            let lc = live_upto(alive0, n_tris as int);
            assert(guard <= run.len() * lc) by (nonlinear_arith)
                requires
                    guard == passes * lc,
                    passes <= run.len(),
            ;
        }
        guard
    }
}


/// The walk may rest at triangle `t` for point `p`: every edge that has
/// `p` strictly on its negative side lies on the hull.
pub open spec fn walk_rests<F: Fn(usize, usize, usize) -> Sign>(
    o: F,
    tris: Seq<[usize; 3]>,
    nbr: Seq<[usize; 3]>,
    t: int,
    p: usize,
) -> bool {
    forall|e: int|
        0 <= e < 3 && #[trigger] orient2_sign(o, tris[t][e], tris[t][next3(e)], p) == Sign::Negative ==> nbr[t][e]
            == NONE2
}

/// Triangle `tri` encloses point `p`: no edge has it strictly on its
/// negative side.
pub open spec fn encloses2<F: Fn(usize, usize, usize) -> Sign>(o: F, tri: [usize; 3], p: usize) -> bool {
    forall|e: int| 0 <= e < 3 ==> #[trigger] orient2_sign(o, tri[e], tri[next3(e)], p) != Sign::Negative
}

impl Cdt {
    /// The triangle the visibility walk from `start` toward point `p`
    /// stops at: each step crosses the first edge that has `p` strictly on
    /// its negative side and a neighbor behind it. After more steps than
    /// twice the slots (plus a margin) it falls back to the first live
    /// triangle enclosing `p`, else to `start`.
    pub fn locate<F: Fn(usize, usize, usize) -> Sign>(&self, start: usize, p: usize, o: &F) -> (r: usize)
        requires
            self.wf(),
            start < self.tris@.len(),
            is_orient2_oracle(*o),
        ensures
            r < self.tris@.len(),
            walk_rests(*o, self.tris@, self.nbr@, r as int, p) || (r == start && forall|t: int|
                0 <= t < self.tris@.len() && self.alive@[t] ==> !encloses2(*o, self.tris@[t], p)),
    {
        let mut t = start;
        let limit: u128 = (self.tris.len() as u128) * 2 + 16;
        let mut k: u128 = 0;
        while k < limit
            invariant
                self.wf(),
                is_orient2_oracle(*o),
                t < self.tris@.len(),
                k <= limit,
            decreases limit - k,
        {
            let tv = self.tris[t];
            let nb = self.nbr[t];
            proof {
                assert(forall|e: int| 0 <= e < 3 ==> nb[e] == NONE2 || nb[e] < self.tris@.len());
            }
            let mut step = NONE2;
            let mut e: usize = 0;
            while e < 3 && step == NONE2
                invariant
                    is_orient2_oracle(*o),
                    e <= 3,
                    tv == self.tris@[t as int],
                    nb == self.nbr@[t as int],
                    forall|j: int| 0 <= j < 3 ==> nb[j] == NONE2 || nb[j] < self.tris@.len(),
                    step == NONE2 ==> forall|j: int|
                        0 <= j < e && #[trigger] orient2_sign(*o, tv[j], tv[next3(j)], p) == Sign::Negative ==> nb[j]
                            == NONE2,
                    step != NONE2 ==> step < self.tris@.len(),
                decreases 3 - e + if step == NONE2 { 1int } else { 0int },
            {
                let b = if e == 2 {
                    tv[0]
                } else {
                    tv[e + 1]
                };
                if orient2_of(o, tv[e], b, p) == Sign::Negative && nb[e] != NONE2 {
                    step = nb[e];
                } else {
                    e += 1;
                }
            }
            if step == NONE2 {
                return t;
            }
            t = step;
            k += 1;
        }
        let mut s: usize = 0;
        while s < self.tris.len()
            invariant
                self.wf(),
                is_orient2_oracle(*o),
                s <= self.tris@.len(),
                forall|u: int| 0 <= u < s && self.alive@[u] ==> !encloses2(*o, self.tris@[u], p),
            decreases self.tris@.len() - s,
        {
            if self.alive[s] {
                let tv = self.tris[s];
                let mut all = true;
                let mut e: usize = 0;
                while e < 3
                    invariant
                        is_orient2_oracle(*o),
                        e <= 3,
                        all ==> forall|j: int| 0 <= j < e ==> #[trigger] orient2_sign(*o, tv[j], tv[next3(j)], p) != Sign::Negative,
                        !all ==> exists|j: int| 0 <= j < 3 && #[trigger] orient2_sign(*o, tv[j], tv[next3(j)], p) == Sign::Negative,
                    decreases 3 - e,
                {
                    let b = if e == 2 {
                        tv[0]
                    } else {
                        tv[e + 1]
                    };
                    if orient2_of(o, tv[e], b, p) == Sign::Negative {
                        proof {
                            assert(orient2_sign(*o, tv[e as int], tv[next3(e as int)], p) == Sign::Negative);
                        }
                        all = false;
                    }
                    e += 1;
                }
                if all {
                    return s;
                }
            }
            s += 1;
        }
        start
    }
}


/// What the on-segment oracle `v` answers for `(a, b)`: a real vertex lying
/// exactly on the open segment, if any.
pub open spec fn on_segment_says<V: Fn(usize, usize) -> Option<usize>>(v: V, a: usize, b: usize) -> Option<usize> {
    choose|r: Option<usize>| call_ensures(v, (a, b), r)
}

/// `v` answers every pair, and always the same way.
pub open spec fn is_on_segment_oracle<V: Fn(usize, usize) -> Option<usize>>(v: V) -> bool {
    &&& forall|a: usize, b: usize| #[trigger] call_requires(v, (a, b))
    &&& forall|a: usize, b: usize, r: Option<usize>, q: Option<usize>|
        #[trigger] call_ensures(v, (a, b), r) && #[trigger] call_ensures(v, (a, b), q) ==> r == q
}

fn on_segment_of<V: Fn(usize, usize) -> Option<usize>>(v: &V, a: usize, b: usize) -> (r: Option<usize>)
    requires
        is_on_segment_oracle(*v),
    ensures
        r == on_segment_says(*v, a, b),
{
    v(a, b)
}

/// One flip of segment forcing: a flippable edge of a live triangle that
/// some segment `(u, v)` properly crosses.
pub open spec fn segment_flip_step<F: Fn(usize, usize, usize) -> Sign>(
    o: F,
    alive: Seq<bool>,
    tris1: Seq<[usize; 3]>,
    nbr1: Seq<[usize; 3]>,
    tris2: Seq<[usize; 3]>,
    nbr2: Seq<[usize; 3]>,
) -> bool {
    exists|u: usize, v: usize| #[trigger] crossing_flip_step(o, u, v, alive, tris1, nbr1, tris2, nbr2)
}

/// `run` is a run of segment-forcing flips from `(tris0, nbr0)`.
pub open spec fn segment_run<F: Fn(usize, usize, usize) -> Sign>(
    o: F,
    alive: Seq<bool>,
    tris0: Seq<[usize; 3]>,
    nbr0: Seq<[usize; 3]>,
    run: Seq<(Seq<[usize; 3]>, Seq<[usize; 3]>)>,
) -> bool {
    &&& run.len() > 0
    &&& run[0] == (tris0, nbr0)
    &&& forall|i: int|
        0 <= i < run.len() - 1 ==> #[trigger] segment_flip_step(o, alive, run[i].0, run[i].1, run[i + 1].0, run[i + 1].1)
}

/// The crossing walk from `a` toward `b` cannot be completed: no triangle
/// can start it, or it runs through a vertex, finds no matching reversed
/// edge, or reaches its step bound (see [`Cdt::crossing_edges`]).
pub open spec fn walk_fails<F: Fn(usize, usize, usize) -> Sign>(
    o: F,
    tris: Seq<[usize; 3]>,
    nbr: Seq<[usize; 3]>,
    alive: Seq<bool>,
    a: usize,
    b: usize,
) -> bool {
    ||| forall|t: int| 0 <= t < tris.len() ==> !#[trigger] walk_starts_at(o, tris, alive, a, b, t)
    ||| exists|w: Seq<(usize, usize)>|
        #![trigger walk_prefix(o, tris, nbr, alive, a, b, w)]
        walk_prefix(o, tris, nbr, alive, a, b, w) && !walk_ends(tris, nbr, b, w.last().0, w.last().1) && (walk_exit(
            o,
            tris,
            nbr,
            a,
            b,
            w.last().0,
            w.last().1,
        ) is None || w.len() >= tris.len())
}

/// The crossing walk is determined: two walks from `a` toward `b` agree on
/// their common length.
proof fn lemma_walk_prefix_unique<F: Fn(usize, usize, usize) -> Sign>(
    o: F,
    tris: Seq<[usize; 3]>,
    nbr: Seq<[usize; 3]>,
    alive: Seq<bool>,
    a: usize,
    b: usize,
    w1: Seq<(usize, usize)>,
    w2: Seq<(usize, usize)>,
    k: int,
)
    requires
        walk_prefix(o, tris, nbr, alive, a, b, w1),
        walk_prefix(o, tris, nbr, alive, a, b, w2),
        0 <= k < w1.len(),
        k < w2.len(),
    ensures
        w1[k] == w2[k],
    decreases k,
{
    reveal(walk_prefix);
    if k == 0 {
        if w1[0].0 < w2[0].0 {
            assert(!walk_starts_at(o, tris, alive, a, b, w1[0].0 as int));
        }
        if w2[0].0 < w1[0].0 {
            assert(!walk_starts_at(o, tris, alive, a, b, w2[0].0 as int));
        }
    } else {
        lemma_walk_prefix_unique(o, tris, nbr, alive, a, b, w1, w2, k - 1);
        assert(!walk_ends(tris, nbr, b, w1[k - 1].0, w1[k - 1].1));
        assert(!walk_ends(tris, nbr, b, w2[k - 1].0, w2[k - 1].1));
        assert(walk_exit(o, tris, nbr, a, b, w1[k - 1].0, w1[k - 1].1) == Some(w1[k].1));
        assert(walk_exit(o, tris, nbr, a, b, w2[k - 1].0, w2[k - 1].1) == Some(w2[k].1));
    }
}

/// The completed crossing walk is unique.
proof fn lemma_complete_walk_unique<F: Fn(usize, usize, usize) -> Sign>(
    o: F,
    tris: Seq<[usize; 3]>,
    nbr: Seq<[usize; 3]>,
    alive: Seq<bool>,
    a: usize,
    b: usize,
    w1: Seq<(usize, usize)>,
    w2: Seq<(usize, usize)>,
)
    requires
        walk_prefix(o, tris, nbr, alive, a, b, w1),
        walk_prefix(o, tris, nbr, alive, a, b, w2),
        walk_ends(tris, nbr, b, w1.last().0, w1.last().1),
        walk_ends(tris, nbr, b, w2.last().0, w2.last().1),
    ensures
        w1 == w2,
{
    reveal(walk_prefix);
    if w1.len() < w2.len() {
        let k = w1.len() - 1;
        lemma_walk_prefix_unique(o, tris, nbr, alive, a, b, w1, w2, k);
        assert(!walk_ends(tris, nbr, b, w2[k].0, w2[k].1));
    } else if w2.len() < w1.len() {
        let k = w2.len() - 1;
        lemma_walk_prefix_unique(o, tris, nbr, alive, a, b, w1, w2, k);
        assert(!walk_ends(tris, nbr, b, w1[k].0, w1[k].1));
    }
    assert forall|k: int| 0 <= k < w1.len() implies w1[k] == w2[k] by {
        lemma_walk_prefix_unique(o, tris, nbr, alive, a, b, w1, w2, k);
    }
    assert(w1 =~= w2);
}

/// A completed crossing walk rules out a failed one.
proof fn lemma_walk_done_not_failed<F: Fn(usize, usize, usize) -> Sign>(
    o: F,
    tris: Seq<[usize; 3]>,
    nbr: Seq<[usize; 3]>,
    alive: Seq<bool>,
    a: usize,
    b: usize,
    out: Seq<(usize, usize)>,
)
    requires
        walk_prefix(o, tris, nbr, alive, a, b, out),
        walk_ends(tris, nbr, b, out.last().0, out.last().1),
        out.len() <= tris.len(),
    ensures
        !walk_fails(o, tris, nbr, alive, a, b),
{
    reveal(walk_prefix);
    assert(walk_starts_at(o, tris, alive, a, b, out[0].0 as int));
    assert forall|w: Seq<(usize, usize)>|
        #[trigger] walk_prefix(o, tris, nbr, alive, a, b, w) && !walk_ends(tris, nbr, b, w.last().0, w.last().1)
            implies !(walk_exit(o, tris, nbr, a, b, w.last().0, w.last().1) is None || w.len() >= tris.len()) by {
        let m = w.len();
        let l = out.len();
        if m <= l {
            lemma_walk_prefix_unique(o, tris, nbr, alive, a, b, w, out, m - 1);
            if m < l {
                assert(!walk_ends(tris, nbr, b, out[m - 1].0, out[m - 1].1));
            }
        } else {
            lemma_walk_prefix_unique(o, tris, nbr, alive, a, b, w, out, l - 1);
            assert(!walk_ends(tris, nbr, b, w[l - 1].0, w[l - 1].1));
        }
    }
}

/// A run of crossing flips for one segment is a run of forcing flips.
proof fn lemma_crossing_run_is_segment_run<F: Fn(usize, usize, usize) -> Sign>(
    o: F,
    a: usize,
    b: usize,
    alive: Seq<bool>,
    tris0: Seq<[usize; 3]>,
    nbr0: Seq<[usize; 3]>,
    run: Seq<(Seq<[usize; 3]>, Seq<[usize; 3]>)>,
)
    requires
        crossing_run(o, a, b, alive, tris0, nbr0, run),
    ensures
        segment_run(o, alive, tris0, nbr0, run),
{
    assert forall|i: int| 0 <= i < run.len() - 1 implies #[trigger] segment_flip_step(
        o,
        alive,
        run[i].0,
        run[i].1,
        run[i + 1].0,
        run[i + 1].1,
    ) by {
        assert(crossing_flip_step(o, a, b, alive, run[i].0, run[i].1, run[i + 1].0, run[i + 1].1));
    }
}

/// Two runs of forcing flips, the second starting where the first ends,
/// make one.
proof fn lemma_segment_runs_join<F: Fn(usize, usize, usize) -> Sign>(
    o: F,
    alive: Seq<bool>,
    tris0: Seq<[usize; 3]>,
    nbr0: Seq<[usize; 3]>,
    r1: Seq<(Seq<[usize; 3]>, Seq<[usize; 3]>)>,
    r2: Seq<(Seq<[usize; 3]>, Seq<[usize; 3]>)>,
)
    requires
        segment_run(o, alive, tris0, nbr0, r1),
        segment_run(o, alive, r1.last().0, r1.last().1, r2),
    ensures
        segment_run(o, alive, tris0, nbr0, r1 + r2.drop_first()),
        (r1 + r2.drop_first()).last() == r2.last(),
{
    let r = r1 + r2.drop_first();
    assert forall|i: int| 0 <= i < r.len() - 1 implies #[trigger] segment_flip_step(
        o,
        alive,
        r[i].0,
        r[i].1,
        r[i + 1].0,
        r[i + 1].1,
    ) by {
        if i + 1 < r1.len() {
            assert(r[i] == r1[i] && r[i + 1] == r1[i + 1]);
        } else if i + 1 == r1.len() {
            assert(r[i] == r1.last() && r1.last() == r2[0]);
            assert(r[i + 1] == r2[1]);
            assert(segment_flip_step(o, alive, r2[0].0, r2[0].1, r2[1].0, r2[1].1));
        } else {
            let j = i - r1.len() + 1;
            assert(r[i] == r2[j] && r[i + 1] == r2[j + 1]);
            assert(segment_flip_step(o, alive, r2[j].0, r2[j].1, r2[j + 1].0, r2[j + 1].1));
        }
    }
    if r2.len() == 1 {
        assert(r =~= r1);
    } else {
        assert(r.last() == r2.last());
    }
}

impl Cdt {
    /// Forces segment `(a, b)` into the triangulation and records it (as
    /// `[min, max]`) among the constraints: nothing more if it is already an
    /// edge; else the edges it crosses are flipped away; if no crossing walk
    /// exists and a vertex lies on the open segment, both halves are forced
    /// in turn. Each split level spends one unit of `depth`; at zero no
    /// further split is made. The triangulation changes only by flips of
    /// edges crossing the segment (or, after a split, a piece of it).
    /// Returns whether the segment settled: it was a point or an edge, its
    /// crossing flips drained (see [`Cdt::flip_crossings`]), or both halves
    /// of a split settled.
    pub fn force_edge<F: Fn(usize, usize, usize) -> Sign, V: Fn(usize, usize) -> Option<usize>>(
        &mut self,
        a: usize,
        b: usize,
        constraints: &mut FxHashSet<[usize; 2]>,
        o: &F,
        on_segment: &V,
        depth: usize,
    ) -> (settled: bool)
        requires
            old(self).wf(),
            old(self).tris@.len() * 50 + 100 <= usize::MAX,
            is_orient2_oracle(*o),
            is_on_segment_oracle(*on_segment),
        ensures
            final(self).wf(),
            final(self).n == old(self).n,
            final(self).tris@.len() == old(self).tris@.len(),
            final(self).alive@ == old(self).alive@,
            old(constraints)@.subset_of(final(constraints)@),
            a != b ==> final(constraints)@.contains(ukey(a, b)),
            a == b ==> final(constraints)@ == old(constraints)@ && *final(self) == *old(self),
            has_edge_spec(old(self).tris@, old(self).alive@, a, b) ==> *final(self) == *old(self),
            a != b && has_edge_spec(old(self).tris@, old(self).alive@, a, b) ==> final(constraints)@ == old(constraints)@.insert(
                ukey(a, b),
            ),
            exists|run: Seq<(Seq<[usize; 3]>, Seq<[usize; 3]>)>|
                #[trigger] segment_run(*o, old(self).alive@, old(self).tris@, old(self).nbr@, run) && run.last() == (
                    final(self).tris@,
                    final(self).nbr@,
                ),
            a != b && !has_edge_spec(old(self).tris@, old(self).alive@, a, b) && !walk_fails(
                *o,
                old(self).tris@,
                old(self).nbr@,
                old(self).alive@,
                a,
                b,
            ) ==> exists|run: Seq<(Seq<[usize; 3]>, Seq<[usize; 3]>)>|
                #[trigger] crossing_run(*o, a, b, old(self).alive@, old(self).tris@, old(self).nbr@, run) && run.last() == (
                    final(self).tris@,
                    final(self).nbr@,
                ),
            a != b && !has_edge_spec(old(self).tris@, old(self).alive@, a, b) && walk_fails(
                *o,
                old(self).tris@,
                old(self).nbr@,
                old(self).alive@,
                a,
                b,
            ) ==> match on_segment_says(*on_segment, a, b) {
                Some(r) => depth > 0 ==> (r != a ==> final(constraints)@.contains(ukey(a, r))) && (r != b
                    ==> final(constraints)@.contains(ukey(r, b))),
                None => *final(self) == *old(self),
            },
            a != b && !has_edge_spec(old(self).tris@, old(self).alive@, a, b) && walk_fails(
                *o,
                old(self).tris@,
                old(self).nbr@,
                old(self).alive@,
                a,
                b,
            ) && depth == 0 ==> *final(self) == *old(self),
            a != b && !has_edge_spec(old(self).tris@, old(self).alive@, a, b) && !walk_fails(
                *o,
                old(self).tris@,
                old(self).nbr@,
                old(self).alive@,
                a,
                b,
            ) ==> forall|w: Seq<(usize, usize)>|
                #[trigger] walk_prefix(*o, old(self).tris@, old(self).nbr@, old(self).alive@, a, b, w) && w.len() > 0
                    && flips_first(
                    *o,
                    a,
                    b,
                    old(self).tris@,
                    old(self).nbr@,
                    old(self).alive@,
                    w[0].0 as int,
                    w[0].1 as int,
                ) ==> exists|run: Seq<(Seq<[usize; 3]>, Seq<[usize; 3]>)>|
                    #[trigger] crossing_run(*o, a, b, old(self).alive@, old(self).tris@, old(self).nbr@, run)
                        && run.last() == (final(self).tris@, final(self).nbr@) && run.len() > 1 && run[1] == flip_result(
                        old(self).tris@,
                        old(self).nbr@,
                        w[0].0 as int,
                        w[0].1 as int,
                    ),
            a == b || has_edge_spec(old(self).tris@, old(self).alive@, a, b) ==> settled,
            a != b && !has_edge_spec(old(self).tris@, old(self).alive@, a, b) && !walk_fails(
                *o,
                old(self).tris@,
                old(self).nbr@,
                old(self).alive@,
                a,
                b,
            ) ==> forall|w: Seq<(usize, usize)>|
                #[trigger] walk_prefix(*o, old(self).tris@, old(self).nbr@, old(self).alive@, a, b, w) && walk_ends(
                    old(self).tris@,
                    old(self).nbr@,
                    b,
                    w.last().0,
                    w.last().1,
                ) ==> exists|run: Seq<(Seq<[usize; 3]>, Seq<[usize; 3]>)>, steps: Seq<(usize, usize)>|
                    #![trigger flips_recorded(run, steps)]
                    crossing_run(*o, a, b, old(self).alive@, old(self).tris@, old(self).nbr@, run) && run.last() == (
                        final(self).tris@,
                        final(self).nbr@,
                    ) && flips_recorded(run, steps) && (settled && partners_rescanned(run, steps) ==> forall|t: int, e: int|
                        0 <= t < final(self).tris@.len() && 0 <= e < 3 && #[trigger] watched(w, run, steps, t, e)
                            ==> !open_crossing(*o, a, b, final(self).tris@, final(self).nbr@, final(self).alive@, t, e)),
            a != b && !has_edge_spec(old(self).tris@, old(self).alive@, a, b) && walk_fails(
                *o,
                old(self).tris@,
                old(self).nbr@,
                old(self).alive@,
                a,
                b,
            ) && (depth == 0 || on_segment_says(*on_segment, a, b) is None) ==> !settled,
        decreases depth,
    {
        let ghost run0: Seq<(Seq<[usize; 3]>, Seq<[usize; 3]>)> = seq![(self.tris@, self.nbr@)];
        proof {
            assert(segment_run(*o, self.alive@, self.tris@, self.nbr@, run0));
        }
        if a == b {
            return true;
        }
        let key = if a <= b {
            [a, b]
        } else {
            [b, a]
        };
        fx_set_insert(constraints, key);
        if self.has_edge(a, b) {
            return true;
        }
        match self.crossing_edges(o, a, b) {
            Some(crossing) => {
                proof {
                    lemma_walk_done_not_failed(*o, self.tris@, self.nbr@, self.alive@, a, b, crossing@);
                }
                let ghost s0 = *self;
                let ghost c0 = crossing@;
                let drained = self.flip_crossings(o, a, b, crossing);
                proof {
                    let run = choose|run: Seq<(Seq<[usize; 3]>, Seq<[usize; 3]>)>|
                        #[trigger] crossing_run(*o, a, b, s0.alive@, s0.tris@, s0.nbr@, run) && run.last() == (
                            self.tris@,
                            self.nbr@,
                        ) && (c0.len() > 0 && flips_first(
                            *o,
                            a,
                            b,
                            s0.tris@,
                            s0.nbr@,
                            s0.alive@,
                            c0[0].0 as int,
                            c0[0].1 as int,
                        ) ==> run.len() > 1 && run[1] == flip_result(s0.tris@, s0.nbr@, c0[0].0 as int, c0[0].1 as int));
                    lemma_crossing_run_is_segment_run(*o, a, b, s0.alive@, s0.tris@, s0.nbr@, run);
                    assert forall|w: Seq<(usize, usize)>|
                        #[trigger] walk_prefix(*o, s0.tris@, s0.nbr@, s0.alive@, a, b, w) && w.len() > 0 && flips_first(
                            *o,
                            a,
                            b,
                            s0.tris@,
                            s0.nbr@,
                            s0.alive@,
                            w[0].0 as int,
                            w[0].1 as int,
                        ) implies exists|run: Seq<(Seq<[usize; 3]>, Seq<[usize; 3]>)>|
                        #[trigger] crossing_run(*o, a, b, s0.alive@, s0.tris@, s0.nbr@, run) && run.last() == (
                            self.tris@,
                            self.nbr@,
                        ) && run.len() > 1 && run[1] == flip_result(s0.tris@, s0.nbr@, w[0].0 as int, w[0].1 as int) by {
                        lemma_walk_prefix_unique(*o, s0.tris@, s0.nbr@, s0.alive@, a, b, w, c0, 0);
                        assert(crossing_run(*o, a, b, s0.alive@, s0.tris@, s0.nbr@, run));
                    }
                    assert forall|w: Seq<(usize, usize)>|
                        #[trigger] walk_prefix(*o, s0.tris@, s0.nbr@, s0.alive@, a, b, w) && walk_ends(
                            s0.tris@,
                            s0.nbr@,
                            b,
                            w.last().0,
                            w.last().1,
                        ) implies exists|run: Seq<(Seq<[usize; 3]>, Seq<[usize; 3]>)>, steps: Seq<(usize, usize)>|
                        #![trigger flips_recorded(run, steps)]
                        crossing_run(*o, a, b, s0.alive@, s0.tris@, s0.nbr@, run) && run.last() == (self.tris@, self.nbr@)
                            && flips_recorded(run, steps) && (drained && partners_rescanned(run, steps) ==> forall|
                            t: int,
                            e: int,
                        |
                            0 <= t < self.tris@.len() && 0 <= e < 3 && #[trigger] watched(w, run, steps, t, e)
                                ==> !open_crossing(*o, a, b, self.tris@, self.nbr@, self.alive@, t, e)) by {
                        lemma_complete_walk_unique(*o, s0.tris@, s0.nbr@, s0.alive@, a, b, w, c0);
                    }
                }
                drained
            },
            None => {
                if depth > 0 {
                    if let Some(r) = on_segment_of(on_segment, a, b) {
                        let ghost c1 = constraints@;
                        let ghost s0 = *self;
                        let first_half = self.force_edge(a, r, constraints, o, on_segment, depth - 1);
                        let ghost c2 = constraints@;
                        let ghost s1 = *self;
                        let second_half = self.force_edge(r, b, constraints, o, on_segment, depth - 1);
                        proof {
                            assert(c1.contains(ukey(a, b)));
                            assert(c1.subset_of(c2));
                            let r1 = choose|run: Seq<(Seq<[usize; 3]>, Seq<[usize; 3]>)>|
                                #[trigger] segment_run(*o, s0.alive@, s0.tris@, s0.nbr@, run) && run.last() == (
                                    s1.tris@,
                                    s1.nbr@,
                                );
                            let r2 = choose|run: Seq<(Seq<[usize; 3]>, Seq<[usize; 3]>)>|
                                #[trigger] segment_run(*o, s1.alive@, s1.tris@, s1.nbr@, run) && run.last() == (
                                    self.tris@,
                                    self.nbr@,
                                );
                            lemma_segment_runs_join(*o, s0.alive@, s0.tris@, s0.nbr@, r1, r2);
                            assert(segment_run(*o, s0.alive@, s0.tris@, s0.nbr@, r1 + r2.drop_first()));
                        }
                        return first_half && second_half;
                    }
                }
                false
            },
        }
    }
}

/// Triangle `s` is where the location walk for point `p` from `last`
/// may stop: a triangle the walk may rest at, or `last` itself when no
/// live triangle encloses `p` (see [`Cdt::locate`]).
pub open spec fn located_at<F: Fn(usize, usize, usize) -> Sign>(
    o: F,
    tris: Seq<[usize; 3]>,
    nbr: Seq<[usize; 3]>,
    alive: Seq<bool>,
    last: usize,
    p: usize,
    s: usize,
) -> bool {
    s < tris.len() && (walk_rests(o, tris, nbr, s as int, p) || (s == last && forall|t: int|
        0 <= t < tris.len() && alive[t] ==> !encloses2(o, tris[t], p)))
}

/// `cav` and `bnd` are a Bowyer-Watson cavity grown from `start` and its
/// boundary (see [`Cdt::cavity_of`]).
pub open spec fn bw_cavity<G: Fn(usize, usize, usize) -> bool>(
    inside: G,
    tris: Seq<[usize; 3]>,
    nbr: Seq<[usize; 3]>,
    start: usize,
    cav: Seq<usize>,
    bnd: Seq<(usize, usize, usize)>,
) -> bool {
    &&& cav.len() > 0
    &&& cav[0] == start
    &&& cav.no_duplicates()
    &&& forall|k: int| 0 <= k < cav.len() ==> (#[trigger] cav[k]) < tris.len()
    &&& forall|k: int| 0 < k < cav.len() ==> is_bad(inside, tris, #[trigger] cav[k])
    &&& forall|k: int, e: int|
        #![trigger nbr[cav[k] as int][e]]
        0 <= k < cav.len() && 0 <= e < 3 ==> keeps_neighbor(inside, tris, nbr, cav[k], e) || cav.contains(
            nbr[cav[k] as int][e],
        )
    &&& forall|x: (usize, usize, usize)| bnd.contains(x) <==> on_cavity_boundary(inside, tris, nbr, cav, x)
    &&& grown_in(nbr, cav)
}

/// `(tris2, nbr2, alive2)` is `(tris1, alive1)` with point `i` fanned to
/// the boundary `bnd` of the cavity `cav` (see [`Cdt::fan`]); `last` is the
/// last triangle placed.
pub open spec fn fanned(
    tris1: Seq<[usize; 3]>,
    alive1: Seq<bool>,
    tris2: Seq<[usize; 3]>,
    nbr2: Seq<[usize; 3]>,
    alive2: Seq<bool>,
    i: usize,
    start: usize,
    cav: Seq<usize>,
    bnd: Seq<(usize, usize, usize)>,
    last: usize,
) -> bool {
    &&& tris2.len() >= tris1.len()
    &&& bnd.len() == 0 ==> last == start
    &&& bnd.len() > 0 ==> last < tris2.len() && alive2[last as int] && tris2[last as int] == [bnd.last().0, bnd.last().1, i]
    &&& forall|c: int|
        0 <= c < cav.len() ==> !alive2[#[trigger] cav[c] as int] || exists|j: int|
            0 <= j < bnd.len() && tris2[cav[c] as int] == [#[trigger] bnd[j].0, bnd[j].1, i]
    &&& forall|j: int|
        0 <= j < bnd.len() ==> exists|t: int|
            0 <= t < tris2.len() && alive2[t] && tris2[t] == [(#[trigger] bnd[j]).0, bnd[j].1, i] && nbr2[t][0] == bnd[j].2
    &&& forall|t: int| 0 <= t < tris1.len() && alive1[t] && !cav.contains(t as usize) ==> #[trigger] tris2[t] == tris1[t]
    &&& forall|t: int| 0 <= t < tris1.len() && alive1[t] && !cav.contains(t as usize) ==> #[trigger] alive2[t]
}

impl Cdt {
    /// Inserts point `i` (Bowyer-Watson): locates it by the walk from
    /// triangle `last`; if the triangle found does not hold it strictly
    /// inside its circumcircle (`inside`, for point `i`), leaves the mesh as
    /// it is; else takes the next `epoch`, grows the cavity and fans `i` to
    /// its boundary. Returns the triangle to start the next walk from and
    /// whether `i` was inserted; `None` when the marks or the free list are
    /// not fit for the cavity, with the mesh untouched.
    pub fn insert_vertex<F: Fn(usize, usize, usize) -> Sign, G: Fn(usize, usize, usize) -> bool>(
        &mut self,
        free: &mut Vec<usize>,
        mark: &mut Vec<u32>,
        epoch: &mut u32,
        last: usize,
        i: usize,
        o: &F,
        inside: &G,
    ) -> (r: Option<(usize, bool)>)
        requires
            old(self).wf(),
            last < old(self).tris@.len(),
            *old(epoch) < u32::MAX,
            is_orient2_oracle(*o),
            is_incircle_oracle(*inside),
        ensures
            r is None ==> *final(self) == *old(self) && final(free)@ == old(free)@,
            r matches Some((next, inserted)) ==> {
                &&& final(self).wf()
                &&& final(self).n == old(self).n
                &&& next < final(self).tris@.len()
                &&& exists|s: usize|
                    #[trigger] located_at(*o, old(self).tris@, old(self).nbr@, old(self).alive@, last, i, s) && (inserted
                        <==> is_bad(*inside, old(self).tris@, s)) && (!inserted ==> *final(self) == *old(self) && next == last
                        && *final(epoch) == *old(epoch)) && (inserted ==> *final(epoch) == *old(epoch) + 1 && exists|
                        cav: Seq<usize>,
                        bnd: Seq<(usize, usize, usize)>,
                    |
                        #[trigger] bw_cavity(*inside, old(self).tris@, old(self).nbr@, s, cav, bnd) && fanned(
                            old(self).tris@,
                            old(self).alive@,
                            final(self).tris@,
                            final(self).nbr@,
                            final(self).alive@,
                            i,
                            s,
                            cav,
                            bnd,
                            next,
                        ))
            },
    {
        let start = self.locate(last, i, o);
        proof {
            assert(located_at(*o, self.tris@, self.nbr@, self.alive@, last, i, start));
        }
        let tv = self.tris[start];
        if !inside_of(inside, tv[0], tv[1], tv[2]) {
            return Some((last, false));
        }
        *epoch = *epoch + 1;
        if !self.cavity_ready(mark, *epoch, start) {
            return None;
        }
        let ghost s0 = *self;
        let (cavity, boundary) = self.cavity_of(mark, *epoch, start, inside);
        proof {
            assert(bw_cavity(*inside, s0.tris@, s0.nbr@, start, cavity@, boundary@));
        }
        if !self.fan_ready(free, mark, &cavity, &boundary) {
            return None;
        }
        let next = self.fan(free, mark, i, start, &cavity, &boundary);
        proof {
            assert(fanned(
                s0.tris@,
                s0.alive@,
                self.tris@,
                self.nbr@,
                self.alive@,
                i,
                start,
                cavity@,
                boundary@,
                next,
            ));
            if boundary@.len() == 0 {
                assert(next == start);
            }
        }
        Some((next, true))
    }
}

} // verus!
