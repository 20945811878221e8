//! Connectivity of the incremental 3D Delaunay tetrahedralization
//! (Bowyer-Watson): a flat slab of tets with per-face neighbor pointers and
//! a free list, cavity boundaries, re-filling a cavity by coning the new
//! point to its boundary, and the simplices a guarded insertion would
//! remove. The geometric predicates that grow a cavity stay with the point
//! coordinates; every decision taken here is combinatorial.
use crate::fxmap::{fx_empty, fx_get, fx_insert, fx_set_contains, fx_set_empty, fx_set_insert};
use crate::topology::{face, face_key, oriented_face_of, sorted3};
use rustc_hash::{FxHashMap, FxHashSet};
use vstd::prelude::*;

verus! {

/// Neighbor pointer of a face on the super-tet hull (no tet across it).
pub const NONE: u32 = 0xFFFF_FFFFu32;

/// A simplex an insertion would remove from the triangulation (public
/// vertex indices).
#[derive(Clone, Copy, Debug, PartialEq, Eq)]
pub enum Removal {
    /// An interior cavity face, vertices sorted ascending.
    Face([usize; 3]),
    /// A fully interior edge, as (min, max).
    Edge(usize, usize),
}

/// Tet slots with neighbor pointers: `neighbors[t][i]` is the tet across
/// the face of `t` opposite vertex `i` ([`NONE`] on the super-tet hull).
/// Internal vertex indices `0..4` are the super-tet corners.
pub struct TetSlab {
    pub tets: Vec<[u32; 4]>,
    pub neighbors: Vec<[u32; 4]>,
    pub alive: Vec<bool>,
    /// Dead slots available for reuse.
    pub free: Vec<u32>,
    /// Epoch marks (cavity membership) per tet slot.
    pub mark: Vec<u32>,
    /// Walk start hint.
    pub last: u32,
    /// Slots created by the latest re-fill, one per cavity boundary face.
    pub new_tets: Vec<u32>,
}

/// All four vertices are inserted points (no super-tet corner).
pub open spec fn is_real(t: [u32; 4]) -> bool {
    t[0] >= 4 && t[1] >= 4 && t[2] >= 4 && t[3] >= 4
}

/// The live, super-corner-free tet of slot `s`, in public indices.
pub open spec fn slab_tet_at(tets: Seq<[u32; 4]>, alive: Seq<bool>, s: u32) -> Option<[usize; 4]> {
    if s < tets.len() && alive[s as int] && is_real(tets[s as int]) {
        Some(public_tet(tets[s as int]))
    } else {
        None
    }
}

/// The tet across face `i` of slot `s` (`None` on the hull).
pub open spec fn slab_neighbor_at(neighbors: Seq<[u32; 4]>, s: u32, i: int) -> Option<u32> {
    if neighbors[s as int][i] == NONE {
        None
    } else {
        Some(neighbors[s as int][i])
    }
}

/// A tet in public vertex indices (inserted points count from 0).
pub open spec fn public_tet(t: [u32; 4]) -> [usize; 4] {
    [(t[0] - 4) as usize, (t[1] - 4) as usize, (t[2] - 4) as usize, (t[3] - 4) as usize]
}

/// The alive all-real tets among the first `k` slots, in slot order.
pub open spec fn real_tets(tets: Seq<[u32; 4]>, alive: Seq<bool>, k: int) -> Seq<[usize; 4]>
    decreases k,
{
    if k <= 0 {
        Seq::empty()
    } else {
        let prev = real_tets(tets, alive, k - 1);
        if alive[k - 1] && is_real(tets[k - 1]) {
            prev.push(public_tet(tets[k - 1]))
        } else {
            prev
        }
    }
}

/// Local position of the single super-tet corner of `t`, if it has
/// exactly one.
pub open spec fn single_super_corner(t: [u32; 4]) -> Option<int> {
    let n = (if t[0] < 4 { 1int } else { 0 }) + (if t[1] < 4 { 1int } else { 0 }) + (if t[2] < 4 {
        1int
    } else {
        0
    }) + (if t[3] < 4 { 1int } else { 0 });
    if n != 1 {
        None
    } else if t[0] < 4 {
        Some(0)
    } else if t[1] < 4 {
        Some(1)
    } else if t[2] < 4 {
        Some(2)
    } else {
        Some(3)
    }
}

/// The hull faces among the first `k` slots: for each alive tet with
/// exactly one super-tet corner, the face opposite that corner (public
/// indices, wound with the corner on its positive side) and the corner.
pub open spec fn hull_faces_upto(tets: Seq<[u32; 4]>, alive: Seq<bool>, k: int) -> Seq<([usize; 3], u32)>
    decreases k,
{
    if k <= 0 {
        Seq::empty()
    } else {
        let prev = hull_faces_upto(tets, alive, k - 1);
        let t = tets[k - 1];
        if alive[k - 1] && single_super_corner(t) is Some {
            let i = single_super_corner(t)->0;
            let f = oriented_face_of(t, i);
            prev.push(([(f[0] - 4) as usize, (f[1] - 4) as usize, (f[2] - 4) as usize], t[i]))
        } else {
            prev
        }
    }
}

/// The cavity boundary faces contributed by cavity tet `ti`: its faces
/// whose neighbor is the hull or outside the cavity (mark differs from
/// `epoch`), as `(tet, face)`.
pub open spec fn tet_boundary(neighbors: Seq<[u32; 4]>, mark: Seq<u32>, ti: u32, epoch: u32) -> Seq<(u32, u8)> {
    let open = |i: int|
        neighbors[ti as int][i] == NONE || mark[neighbors[ti as int][i] as int] != epoch;
    let s0 = if open(0) { seq![(ti, 0u8)] } else { Seq::empty() };
    let s1 = if open(1) { s0.push((ti, 1u8)) } else { s0 };
    let s2 = if open(2) { s1.push((ti, 2u8)) } else { s1 };
    if open(3) { s2.push((ti, 3u8)) } else { s2 }
}

/// The boundary faces of the first `k` cavity tets, in cavity order.
pub open spec fn cavity_boundary_upto(neighbors: Seq<[u32; 4]>, mark: Seq<u32>, cavity: Seq<u32>, epoch: u32, k: int) -> Seq<(u32, u8)>
    decreases k,
{
    if k <= 0 {
        Seq::empty()
    } else {
        cavity_boundary_upto(neighbors, mark, cavity, epoch, k - 1) + tet_boundary(neighbors, mark, cavity[k - 1], epoch)
    }
}

impl TetSlab {
    /// Parallel per-slot tables, slot indices below [`NONE`], and a free
    /// list of distinct dead slots.
    pub open spec fn wf(&self) -> bool {
        &&& self.neighbors@.len() == self.tets@.len()
        &&& self.alive@.len() == self.tets@.len()
        &&& self.mark@.len() == self.tets@.len()
        &&& self.tets@.len() <= NONE
        &&& forall|t: int, i: int|
            #![trigger self.neighbors@[t][i]]
            0 <= t < self.tets@.len() && 0 <= i < 4 ==> self.neighbors@[t][i] == NONE
                || self.neighbors@[t][i] < self.tets@.len()
        &&& self.free@.no_duplicates()
        &&& forall|i: int|
            0 <= i < self.free@.len() ==> (#[trigger] self.free@[i]) < self.tets@.len()
                && !self.alive@[self.free@[i] as int]
    }

    /// A slab holding the single seed tet `seed` (the super-tet).
    pub fn seeded(seed: [u32; 4]) -> (s: TetSlab)
        ensures
            s.wf(),
            s.tets@ == seq![seed],
            s.neighbors@ == seq![[NONE, NONE, NONE, NONE]],
            s.alive@ == seq![true],
            s.free@.len() == 0,
            s.mark@ == seq![0u32],
            s.last == 0,
            s.new_tets@.len() == 0,
            wired(s.tets@, s.neighbors@, s.alive@),
    {
        TetSlab {
            tets: vec![seed],
            neighbors: vec![[NONE, NONE, NONE, NONE]],
            alive: vec![true],
            free: Vec::new(),
            mark: vec![0],
            last: 0,
            new_tets: Vec::new(),
        }
    }

    /// Places tet `t` in a slot -- the most recently freed one, else a new
    /// one -- with no neighbors, alive and unmarked.
    pub fn alloc_tet(&mut self, t: [u32; 4]) -> (slot: u32)
        requires
            old(self).wf(),
            old(self).free@.len() > 0 || old(self).tets@.len() < NONE,
        ensures
            final(self).wf(),
            slot < final(self).tets@.len(),
            old(self).free@.len() > 0 ==> {
                &&& slot == old(self).free@.last()
                &&& final(self).free@ == old(self).free@.drop_last()
                &&& final(self).tets@.len() == old(self).tets@.len()
            },
            old(self).free@.len() == 0 ==> {
                &&& slot == old(self).tets@.len()
                &&& final(self).free@ == old(self).free@
                &&& final(self).tets@.len() == old(self).tets@.len() + 1
            },
            final(self).tets@ == if old(self).free@.len() > 0 {
                old(self).tets@.update(slot as int, t)
            } else {
                old(self).tets@.push(t)
            },
            final(self).neighbors@ == if old(self).free@.len() > 0 {
                old(self).neighbors@.update(slot as int, [NONE, NONE, NONE, NONE])
            } else {
                old(self).neighbors@.push([NONE, NONE, NONE, NONE])
            },
            final(self).alive@ == if old(self).free@.len() > 0 {
                old(self).alive@.update(slot as int, true)
            } else {
                old(self).alive@.push(true)
            },
            final(self).mark@ == if old(self).free@.len() > 0 {
                old(self).mark@.update(slot as int, 0)
            } else {
                old(self).mark@.push(0)
            },
            final(self).last == old(self).last,
            final(self).new_tets@ == old(self).new_tets@,
    {
        if let Some(slot) = self.free.pop() {
            self.tets[slot as usize] = t;
            self.neighbors[slot as usize] = [NONE, NONE, NONE, NONE];
            self.alive[slot as usize] = true;
            self.mark[slot as usize] = 0;
            slot
        } else {
            self.tets.push(t);
            self.neighbors.push([NONE, NONE, NONE, NONE]);
            self.alive.push(true);
            self.mark.push(0);
            let slot = (self.tets.len() - 1) as u32;
            slot
        }
    }
}

/// The tet coning point `p` to boundary face `b = (tet, face)`: the face
/// as wound in the cavity tet (cavity on its positive side), then `p`.
pub open spec fn cone(tets: Seq<[u32; 4]>, b: (u32, u8), p: u32) -> [u32; 4] {
    let f = oriented_face_of(tets[b.0 as int], b.1 as int);
    [f[0], f[1], f[2], p]
}

/// The tet across boundary face `b` ([`NONE`] on the hull).
pub open spec fn across(neighbors: Seq<[u32; 4]>, b: (u32, u8)) -> u32 {
    neighbors[b.0 as int][b.1 as int]
}

/// The conditions a re-fill relies on: a non-empty boundary of faces of
/// alive tets, each outside tet alive and pointing back at its cavity tet,
/// no outside tet reached through two faces of one cavity tet, a
/// repeat-free cavity of alive tets, room for the new slots, and a real
/// point.
pub open spec fn refill_ready(slab: TetSlab, p: u32, cavity: Seq<u32>, boundary: Seq<(u32, u8)>) -> bool {
    let n = slab.tets@.len();
    &&& slab.wf()
    &&& boundary.len() > 0
    &&& p >= 4
    &&& n + boundary.len() <= NONE
    &&& forall|j: int|
        0 <= j < boundary.len() ==> (#[trigger] boundary[j]).0 < n && boundary[j].1 < 4
            && slab.alive@[boundary[j].0 as int]
    &&& forall|j: int|
        0 <= j < boundary.len() && #[trigger] across(slab.neighbors@, boundary[j]) != NONE ==> {
            let o = across(slab.neighbors@, boundary[j]) as int;
            &&& slab.alive@[o]
            &&& exists|k: int| 0 <= k < 4 && slab.neighbors@[o][k] == boundary[j].0
        }
    &&& forall|j1: int, j2: int|
        0 <= j1 < boundary.len() && 0 <= j2 < boundary.len() && j1 != j2 && across(
            slab.neighbors@,
            #[trigger] boundary[j1],
        ) != NONE && across(slab.neighbors@, boundary[j1]) == across(
            slab.neighbors@,
            #[trigger] boundary[j2],
        ) ==> boundary[j1].0 != boundary[j2].0
    &&& forall|j1: int, j2: int|
        0 <= j1 < boundary.len() && 0 <= j2 < boundary.len() ==> across(slab.neighbors@, #[trigger] boundary[j1])
            != (#[trigger] boundary[j2]).0
    &&& cavity.no_duplicates()
    &&& forall|c: int| 0 <= c < cavity.len() ==> (#[trigger] cavity[c]) < n && slab.alive@[cavity[c] as int]
}

/// Slot `t` held no live tet when a re-fill started (`alive0` covers the
/// first `n0` slots).
pub open spec fn fresh(alive0: Seq<bool>, n0: int, t: int) -> bool {
    !(0 <= t < n0 && alive0[t])
}

/// The first local slot of `row` holding `x` (`4` if none).
pub open spec fn first_slot(row: [u32; 4], x: u32) -> int {
    if row[0] == x {
        0
    } else if row[1] == x {
        1
    } else if row[2] == x {
        2
    } else if row[3] == x {
        3
    } else {
        4
    }
}

/// One edge link of a re-fill: if `key` is recorded for `(ot, oslot)`,
/// new tet `nt` (at `slot`) and `ot` (at `oslot`) point at each other and
/// the record stays; otherwise `nt` is recorded for `key`.
pub open spec fn link_effect(
    nb1: Seq<[u32; 4]>,
    map1: Map<[u32; 2], (u32, u8)>,
    nb2: Seq<[u32; 4]>,
    map2: Map<[u32; 2], (u32, u8)>,
    nt: u32,
    key: [u32; 2],
    slot: u8,
) -> bool {
    if map1.contains_key(key) {
        let ot = map1[key].0;
        let oslot = map1[key].1;
        let mid = nb1.update(nt as int, row_with(nb1[nt as int], slot as int, ot));
        &&& map2 == map1
        &&& nb2 == mid.update(ot as int, row_with(mid[ot as int], oslot as int, nt))
    } else {
        &&& map2 == map1.insert(key, (nt, slot))
        &&& nb2 == nb1
    }
}

/// Key of the base edge opposite slot `s` (`0..3`) of the tet coned to
/// boundary face `j` (the edge its slot-`s` face shares with a neighbor
/// new tet).
pub open spec fn slot_key(tets: Seq<[u32; 4]>, bnd: Seq<(u32, u8)>, j: int, s: int) -> [u32; 2] {
    tri_edge_key(boundary_tri(tets, bnd[j]), (s + 1) % 3)
}

/// `(j2, s2)` is another boundary slot on the same base edge as `(j, s)`.
pub open spec fn slot_partner(tets: Seq<[u32; 4]>, bnd: Seq<(u32, u8)>, j: int, s: int, j2: int, s2: int) -> bool {
    &&& 0 <= j2 < bnd.len()
    &&& 0 <= s2 < 3
    &&& (j2, s2) != (j, s)
    &&& slot_key(tets, bnd, j2, s2) == slot_key(tets, bnd, j, s)
}

/// No base edge is shared by more than two boundary slots.
pub open spec fn edges_at_most_twice(tets: Seq<[u32; 4]>, bnd: Seq<(u32, u8)>) -> bool {
    forall|j: int, s: int, j1: int, s1: int, j2: int, s2: int|
        0 <= j < bnd.len() && 0 <= s < 3 && #[trigger] slot_partner(tets, bnd, j, s, j1, s1)
            && #[trigger] slot_partner(tets, bnd, j, s, j2, s2) ==> j1 == j2 && s1 == s2
}

/// Position of slot `s` in the order a re-fill links a new tet's base
/// edges: slot 2 (edge 0), slot 0 (edge 1), slot 1 (edge 2).
pub open spec fn link_order(s: int) -> int {
    if s == 2 {
        0
    } else if s == 0 {
        1
    } else {
        2
    }
}

/// The slot linked at step `m` of a face.
pub open spec fn link_slot(m: int) -> int {
    if m == 0 {
        2
    } else if m == 1 {
        0
    } else {
        1
    }
}

/// Slot `s` of boundary face `j` was linked before step `m` of face `bi`.
pub open spec fn processed(bi: int, m: int, j: int, s: int) -> bool {
    j < bi || (j == bi && link_order(s) < m)
}

/// The re-fill edge wiring after step `m` of face `bi`: linked slots on a
/// common edge point at each other's new tets, and the edge record holds,
/// for each edge linked so far, one of its slots.
pub open spec fn linked_upto(
    tets: Seq<[u32; 4]>,
    bnd: Seq<(u32, u8)>,
    news: Seq<u32>,
    nb: Seq<[u32; 4]>,
    map: Map<[u32; 2], (u32, u8)>,
    bi: int,
    m: int,
) -> bool {
    &&& forall|j: int, s: int, j2: int, s2: int|
        0 <= j < bnd.len() && 0 <= s < 3 && processed(bi, m, j, s) && processed(bi, m, j2, s2)
            && #[trigger] slot_partner(tets, bnd, j, s, j2, s2) ==> nb[news[j] as int][s] == news[j2]
    &&& forall|key: [u32; 2]|
        #[trigger] map.contains_key(key) ==> exists|j: int, s: int|
            0 <= j < bnd.len() && 0 <= s < 3 && processed(bi, m, j, s) && #[trigger] slot_key(tets, bnd, j, s)
                == key && map[key] == (news[j], s as u8)
    &&& forall|j: int, s: int|
        0 <= j < bnd.len() && 0 <= s < 3 && processed(bi, m, j, s) ==> map.contains_key(
            #[trigger] slot_key(tets, bnd, j, s),
        )
}

/// One link step keeps the wiring: linking slot `link_slot(m)` of face
/// `bi` extends [`linked_upto`] by that slot, and only touches base slots
/// of new tets.
proof fn lemma_link_step(
    tets: Seq<[u32; 4]>,
    bnd: Seq<(u32, u8)>,
    news: Seq<u32>,
    bi: int,
    m: int,
    nb1: Seq<[u32; 4]>,
    map1: Map<[u32; 2], (u32, u8)>,
    nb2: Seq<[u32; 4]>,
    map2: Map<[u32; 2], (u32, u8)>,
)
    requires
        0 <= bi < bnd.len(),
        0 <= m < 3,
        news.len() == bi + 1,
        news.no_duplicates(),
        forall|j: int| 0 <= j < news.len() ==> (#[trigger] news[j]) < nb1.len(),
        edges_at_most_twice(tets, bnd),
        linked_upto(tets, bnd, news, nb1, map1, bi, m),
        link_effect(nb1, map1, nb2, map2, news[bi], slot_key(tets, bnd, bi, link_slot(m)), link_slot(m) as u8),
    ensures
        linked_upto(tets, bnd, news, nb2, map2, bi, m + 1),
        nb2.len() == nb1.len(),
        forall|t: int, k: int|
            0 <= t < nb1.len() && 0 <= k < 4 && #[trigger] nb2[t][k] != nb1[t][k] ==> k < 3 && news.contains(
                t as u32,
            ),
{
    let sm = link_slot(m);
    let key = slot_key(tets, bnd, bi, sm);
    let nt = news[bi];
    assert(link_order(sm) == m);
    assert forall|j: int, s: int| 0 <= s < 3 implies processed(bi, m + 1, j, s) <==> processed(bi, m, j, s) || (j == bi
        && s == sm) by {}
    if map1.contains_key(key) {
        let (j2, s2) = choose|j2: int, s2: int|
            0 <= j2 < bnd.len() && 0 <= s2 < 3 && processed(bi, m, j2, s2) && #[trigger] slot_key(tets, bnd, j2, s2)
                == key && map1[key] == (news[j2], s2 as u8);
        let ot = news[j2];
        let oslot = s2;
        assert(slot_partner(tets, bnd, bi, sm, j2, s2));
        let mid = nb1.update(nt as int, row_with(nb1[nt as int], sm, ot));
        assert forall|j: int, s: int, j3: int, s3: int|
            0 <= j < bnd.len() && 0 <= s < 3 && processed(bi, m + 1, j, s) && processed(bi, m + 1, j3, s3)
                && #[trigger] slot_partner(tets, bnd, j, s, j3, s3) implies nb2[news[j] as int][s] == news[j3] by {
            if j == bi && s == sm {
                // the only partner of the new slot is (j2, s2)
                assert(slot_partner(tets, bnd, bi, sm, j2, s2));
                assert(j3 == j2 && s3 == s2);
                if ot == nt && oslot == sm {
                    assert(false);
                }
                if ot == nt {
                    assert(nb2[nt as int] == row_with(mid[nt as int], oslot, nt));
                    assert(mid[nt as int] == row_with(nb1[nt as int], sm, ot));
                }
            } else if j == j2 && s == s2 {
                assert(slot_partner(tets, bnd, j2, s2, bi, sm));
                assert(j3 == bi && s3 == sm);
            } else {
                // neither linked slot: its entry is unchanged
                assert(news[j] != nt || s != sm);
                if j3 == bi && s3 == sm {
                    // (j, s) would be a third slot on `key`
                    assert(slot_partner(tets, bnd, bi, sm, j, s));
                    assert(slot_partner(tets, bnd, bi, sm, j2, s2));
                    assert(false);
                }
                if news[j] == nt {
                    assert(j == bi);
                }
                if news[j] == ot {
                    assert(j == j2);
                }
                assert(nb2[news[j] as int][s] == nb1[news[j] as int][s]);
            }
        }
        assert forall|t: int, k: int|
            0 <= t < nb1.len() && 0 <= k < 4 && #[trigger] nb2[t][k] != nb1[t][k] implies k < 3 && news.contains(
            t as u32,
        ) by {
            if t == nt as int {
                assert(news[bi] == nt);
            } else {
                assert(t == ot as int);
                assert(news[j2] == ot);
            }
        }
    } else {
        assert forall|j: int, s: int, j3: int, s3: int|
            0 <= j < bnd.len() && 0 <= s < 3 && processed(bi, m + 1, j, s) && processed(bi, m + 1, j3, s3)
                && #[trigger] slot_partner(tets, bnd, j, s, j3, s3) implies nb2[news[j] as int][s] == news[j3] by {
            if j == bi && s == sm {
                if processed(bi, m, j3, s3) {
                    assert(map1.contains_key(slot_key(tets, bnd, j3, s3)));
                    assert(false);
                }
            } else if j3 == bi && s3 == sm {
                assert(map1.contains_key(slot_key(tets, bnd, j, s)));
                assert(false);
            }
        }
        assert forall|k2: [u32; 2]| #[trigger] map2.contains_key(k2) implies exists|j: int, s: int|
            0 <= j < bnd.len() && 0 <= s < 3 && processed(bi, m + 1, j, s) && #[trigger] slot_key(tets, bnd, j, s)
                == k2 && map2[k2] == (news[j], s as u8) by {
            if k2 == key {
                assert(slot_key(tets, bnd, bi, sm) == k2);
            }
        }
    }
}

/// Linking all three slots of face `bi` is the wiring before face `bi + 1`.
proof fn lemma_linked_next_face(
    tets: Seq<[u32; 4]>,
    bnd: Seq<(u32, u8)>,
    news: Seq<u32>,
    nb: Seq<[u32; 4]>,
    map: Map<[u32; 2], (u32, u8)>,
    bi: int,
)
    requires
        linked_upto(tets, bnd, news, nb, map, bi, 3),
    ensures
        linked_upto(tets, bnd, news, nb, map, bi + 1, 0),
{
    assert forall|j: int, s: int| 0 <= s < 3 implies processed(bi + 1, 0, j, s) == processed(bi, 3, j, s) by {}
    assert forall|key: [u32; 2]| #[trigger] map.contains_key(key) implies exists|j: int, s: int|
        0 <= j < bnd.len() && 0 <= s < 3 && processed(bi + 1, 0, j, s) && #[trigger] slot_key(tets, bnd, j, s) == key
            && map[key] == (news[j], s as u8) by {
        let (j, s) = choose|j: int, s: int|
            0 <= j < bnd.len() && 0 <= s < 3 && processed(bi, 3, j, s) && #[trigger] slot_key(tets, bnd, j, s) == key
                && map[key] == (news[j], s as u8);
        assert(processed(bi + 1, 0, j, s));
    }
}

/// The vertex set of face `i` of tet `t`.
pub open spec fn face_verts(t: [u32; 4], i: int) -> Set<u32> {
    let f = oriented_face_of(t, i);
    set![f[0], f[1], f[2]]
}

/// Neighbor pointers are mutual: a pointer of a live tet leads to a live
/// tet that points back (first at the same face, which has the same
/// vertices on both sides), and no live tet reaches another through two of
/// its faces.
pub open spec fn wired(tets: Seq<[u32; 4]>, nb: Seq<[u32; 4]>, alive: Seq<bool>) -> bool {
    &&& forall|t: int, k: int|
        #![trigger nb[t][k]]
        0 <= t < nb.len() && alive[t] && 0 <= k < 4 && nb[t][k] != NONE ==> {
            let o = nb[t][k] as int;
            &&& 0 <= o < nb.len()
            &&& alive[o]
            &&& first_slot(nb[o], t as u32) < 4
            &&& face_verts(tets[t], k) == face_verts(tets[o], first_slot(nb[o], t as u32))
        }
    &&& forall|t: int, k1: int, k2: int|
        0 <= t < nb.len() && alive[t] && 0 <= k1 < 4 && 0 <= k2 < 4 && k1 != k2 && #[trigger] nb[t][k1] != NONE
            ==> nb[t][k1] != #[trigger] nb[t][k2]
}

/// `bnd` is exactly the boundary of `cavity`: the faces of cavity tets
/// whose neighbor is the hull or outside the cavity.
pub open spec fn is_cavity_boundary(nb: Seq<[u32; 4]>, cavity: Seq<u32>, bnd: Seq<(u32, u8)>) -> bool {
    &&& forall|j: int|
        0 <= j < bnd.len() ==> cavity.contains((#[trigger] bnd[j]).0) && (across(nb, bnd[j]) == NONE
            || !cavity.contains(across(nb, bnd[j])))
    &&& forall|c: u32, i: int|
        cavity.contains(c) && 0 <= i < 4 && (#[trigger] nb[c as int][i] == NONE || !cavity.contains(nb[c as int][i]))
            ==> exists|j: int| 0 <= j < bnd.len() && #[trigger] bnd[j] == (c, i as u8)
}

/// The boundary faces form a closed surface: every base edge lies on
/// exactly two boundary faces, and two boundary faces share at most one
/// edge.
pub open spec fn closed_manifold(tets: Seq<[u32; 4]>, bnd: Seq<(u32, u8)>) -> bool {
    &&& edges_at_most_twice(tets, bnd)
    &&& forall|j: int, s: int|
        #![trigger slot_key(tets, bnd, j, s)]
        0 <= j < bnd.len() && 0 <= s < 3 ==> exists|j2: int, s2: int| #[trigger] slot_partner(tets, bnd, j, s, j2, s2)
    &&& forall|j: int, s: int, j2: int, s2: int|
        0 <= j < bnd.len() && 0 <= s < 3 && #[trigger] slot_partner(tets, bnd, j, s, j2, s2) ==> j2 != j
    &&& forall|j: int, s1: int, j1: int, t1: int, s2: int, j2: int, t2: int|
        0 <= j < bnd.len() && 0 <= s1 < 3 && 0 <= s2 < 3 && s1 != s2 && #[trigger] slot_partner(
            tets,
            bnd,
            j,
            s1,
            j1,
            t1,
        ) && #[trigger] slot_partner(tets, bnd, j, s2, j2, t2) ==> j1 != j2
}

/// What a re-fill leaves behind, in terms of the slab before it (`tets0`,
/// `nb0`, `alive0`) and after it (`tets1`, `nb1`, `alive1`), the new tets
/// `news` (one per boundary face) and the point `p`.
pub open spec fn refill_outcome(
    tets0: Seq<[u32; 4]>,
    nb0: Seq<[u32; 4]>,
    alive0: Seq<bool>,
    cavity: Seq<u32>,
    bnd: Seq<(u32, u8)>,
    p: u32,
    news: Seq<u32>,
    tets1: Seq<[u32; 4]>,
    nb1: Seq<[u32; 4]>,
    alive1: Seq<bool>,
) -> bool {
    let n0 = tets0.len() as int;
    &&& nb0.len() == n0 && alive0.len() == n0
    &&& nb1.len() == tets1.len() && alive1.len() == tets1.len() && n0 <= tets1.len() <= NONE
    &&& news.len() == bnd.len() && news.no_duplicates()
    &&& forall|j: int|
        0 <= j < news.len() ==> {
            let nt = #[trigger] news[j] as int;
            &&& nt < tets1.len()
            &&& fresh(alive0, n0, nt)
            &&& alive1[nt]
            &&& tets1[nt] == cone(tets0, bnd[j], p)
            &&& nb1[nt][3] == across(nb0, bnd[j])
            &&& across(nb0, bnd[j]) != NONE ==> exists|k: int|
                0 <= k < 4 && nb1[across(nb0, bnd[j]) as int][k] == news[j]
        }
    &&& forall|t: int|
        0 <= t < n0 && alive0[t] ==> #[trigger] tets1[t] == tets0[t] && (alive1[t] <==> !cavity.contains(t as u32))
    &&& forall|t: int, k: int|
        #![trigger nb1[t][k]]
        0 <= t < n0 && alive0[t] && 0 <= k < 4 ==> nb1[t][k] == nb0[t][k] || (exists|j: int|
            0 <= j < bnd.len() && across(nb0, bnd[j]) == t && nb0[t][k] == bnd[j].0 && nb1[t][k]
                == #[trigger] news[j])
    &&& forall|t: int| 0 <= t < tets1.len() && #[trigger] alive1[t] ==> (t < n0 && alive0[t]) || news.contains(t as u32)
    &&& edges_at_most_twice(tets0, bnd) ==> forall|j: int, s: int, j2: int, s2: int|
        0 <= j < bnd.len() && 0 <= s < 3 && #[trigger] slot_partner(tets0, bnd, j, s, j2, s2) ==> nb1[news[j] as int][s]
            == news[j2]
}

/// The vertices of base slot `s` of a coned tet: the slot's base edge and
/// the apex.
proof fn lemma_cone_slot_verts(tets0: Seq<[u32; 4]>, bnd: Seq<(u32, u8)>, j: int, s: int, p: u32)
    requires
        0 <= s < 3,
    ensures
        face_verts(cone(tets0, bnd[j], p), s) == set![slot_key(tets0, bnd, j, s)[0], slot_key(tets0, bnd, j, s)[1], p],
        face_verts(cone(tets0, bnd[j], p), 3) == face_verts(tets0[bnd[j].0 as int], bnd[j].1 as int),
{
    let f = boundary_tri(tets0, bnd[j]);
    let c = cone(tets0, bnd[j], p);
    assert(c[0] == f[0] && c[1] == f[1] && c[2] == f[2] && c[3] == p);
    assert(face_verts(c, s) =~= set![slot_key(tets0, bnd, j, s)[0], slot_key(tets0, bnd, j, s)[1], p]);
    assert(face_verts(c, 3) =~= face_verts(tets0[bnd[j].0 as int], bnd[j].1 as int));
}

/// `x` sits in slot `k` of `row` and in no other slot: it is the row's
/// first slot holding `x`.
proof fn lemma_first_slot_unique(row: [u32; 4], x: u32, k: int)
    requires
        0 <= k < 4,
        row[k] == x,
        forall|k2: int| 0 <= k2 < 4 && k2 != k ==> row[k2] != x,
    ensures
        first_slot(row, x) == k,
{
}

/// The slab before a re-fill, its cavity and boundary, as the wiring law
/// assumes them.
pub open spec fn wiring_setup(
    tets0: Seq<[u32; 4]>,
    nb0: Seq<[u32; 4]>,
    alive0: Seq<bool>,
    cavity: Seq<u32>,
    bnd: Seq<(u32, u8)>,
) -> bool {
    &&& nb0.len() == tets0.len() && alive0.len() == tets0.len()
    &&& wired(tets0, nb0, alive0)
    &&& forall|c: int| 0 <= c < cavity.len() ==> (#[trigger] cavity[c]) < tets0.len() && alive0[cavity[c] as int]
    &&& forall|j: int| 0 <= j < bnd.len() ==> (#[trigger] bnd[j]).0 < tets0.len() && bnd[j].1 < 4
    &&& is_cavity_boundary(nb0, cavity, bnd)
    &&& closed_manifold(tets0, bnd)
}

/// Under the law's assumptions every base slot of a new tet holds its
/// partner's new tet, and the apex slot the tet across the boundary.
proof fn lemma_new_row(
    tets0: Seq<[u32; 4]>,
    nb0: Seq<[u32; 4]>,
    alive0: Seq<bool>,
    cavity: Seq<u32>,
    bnd: Seq<(u32, u8)>,
    p: u32,
    news: Seq<u32>,
    tets1: Seq<[u32; 4]>,
    nb1: Seq<[u32; 4]>,
    alive1: Seq<bool>,
    j: int,
    k: int,
) -> (r: (int, int))
    requires
        wiring_setup(tets0, nb0, alive0, cavity, bnd),
        refill_outcome(tets0, nb0, alive0, cavity, bnd, p, news, tets1, nb1, alive1),
        0 <= j < bnd.len(),
        0 <= k < 3,
    ensures
        slot_partner(tets0, bnd, j, k, r.0, r.1),
        nb1[news[j] as int][k] == news[r.0],
        r.0 != j,
{
    assert(closed_manifold(tets0, bnd));
    assert(edges_at_most_twice(tets0, bnd));
    assert(exists|j2: int, s2: int| #[trigger] slot_partner(tets0, bnd, j, k, j2, s2)) by {
        let _key = slot_key(tets0, bnd, j, k);
    }
    let (j2, s2) = choose|j2: int, s2: int| #[trigger] slot_partner(tets0, bnd, j, k, j2, s2);
    (j2, s2)
}

/// An outside pointer is NONE or a tet live before the re-fill.
proof fn lemma_across_is_old(
    tets0: Seq<[u32; 4]>,
    nb0: Seq<[u32; 4]>,
    alive0: Seq<bool>,
    cavity: Seq<u32>,
    bnd: Seq<(u32, u8)>,
    j: int,
)
    requires
        wiring_setup(tets0, nb0, alive0, cavity, bnd),
        0 <= j < bnd.len(),
    ensures
        across(nb0, bnd[j]) != NONE ==> across(nb0, bnd[j]) < tets0.len() && alive0[across(nb0, bnd[j]) as int],
        cavity.contains(bnd[j].0),
        alive0[bnd[j].0 as int],
{
    let c = bnd[j].0;
    assert(cavity.contains(c));
    let ci = choose|ci: int| 0 <= ci < cavity.len() && cavity[ci] == c;
    assert(cavity[ci] < tets0.len());
    if across(nb0, bnd[j]) != NONE {
        assert(nb0[c as int][bnd[j].1 as int] != NONE);
    }
}

/// The wiring law for the pointers of a new tet.
proof fn lemma_wired_new(
    tets0: Seq<[u32; 4]>,
    nb0: Seq<[u32; 4]>,
    alive0: Seq<bool>,
    cavity: Seq<u32>,
    bnd: Seq<(u32, u8)>,
    p: u32,
    news: Seq<u32>,
    tets1: Seq<[u32; 4]>,
    nb1: Seq<[u32; 4]>,
    alive1: Seq<bool>,
    j: int,
    k: int,
)
    requires
        wiring_setup(tets0, nb0, alive0, cavity, bnd),
        refill_outcome(tets0, nb0, alive0, cavity, bnd, p, news, tets1, nb1, alive1),
        0 <= j < bnd.len(),
        0 <= k < 4,
        nb1[news[j] as int][k] != NONE,
    ensures
        ({
            let t = news[j] as int;
            let o = nb1[t][k] as int;
            &&& 0 <= o < nb1.len()
            &&& alive1[o]
            &&& first_slot(nb1[o], t as u32) < 4
            &&& face_verts(tets1[t], k) == face_verts(tets1[o], first_slot(nb1[o], t as u32))
        }),
{
    let n0 = tets0.len() as int;
    let nt = news[j];
    assert(fresh(alive0, n0, nt as int));
    assert(nt < tets1.len());
    if k == 3 {
        let c = bnd[j].0;
        let i = bnd[j].1 as int;
        let o = across(nb0, bnd[j]);
        lemma_across_is_old(tets0, nb0, alive0, cavity, bnd, j);
        assert(nb1[nt as int][3] == o);
        assert(nb0[c as int][i] == o);
        let kc = first_slot(nb0[o as int], c);
        assert(kc < 4 && face_verts(tets0[c as int], i) == face_verts(tets0[o as int], kc));
        assert(!cavity.contains(o));
        assert(tets1[o as int] == tets0[o as int]);
        assert(alive1[o as int]);
        assert(nb0[o as int][kc] == c);
        assert forall|k2: int| 0 <= k2 < 4 && nb1[o as int][k2] == nt implies k2 == kc by {
            if nb1[o as int][k2] == nb0[o as int][k2] {
                assert(nb0[o as int][k2] != NONE);
                assert(alive0[nb0[o as int][k2] as int]);
            } else {
                let j2 = choose|j2: int|
                    0 <= j2 < bnd.len() && across(nb0, bnd[j2]) == o && nb0[o as int][k2] == bnd[j2].0
                        && nb1[o as int][k2] == #[trigger] news[j2];
                assert(j2 == j);
                if k2 != kc {
                    assert(nb0[o as int][kc] != NONE);
                    assert(nb0[o as int][kc] != nb0[o as int][k2]);
                }
            }
        }
        let kw = choose|kw: int| 0 <= kw < 4 && nb1[o as int][kw] == news[j];
        assert(kw == kc);
        lemma_first_slot_unique(nb1[o as int], nt, kc);
        lemma_cone_slot_verts(tets0, bnd, j, 0, p);
        assert(tets1[o as int] == tets0[o as int]);
    } else {
        let (j2, s2) = lemma_new_row(tets0, nb0, alive0, cavity, bnd, p, news, tets1, nb1, alive1, j, k);
        let o = news[j2];
        assert(slot_partner(tets0, bnd, j2, s2, j, k));
        assert(nb1[o as int][s2] == nt);
        assert forall|k2: int| 0 <= k2 < 4 && k2 != s2 implies nb1[o as int][k2] != nt by {
            if k2 == 3 {
                lemma_across_is_old(tets0, nb0, alive0, cavity, bnd, j2);
            } else {
                let (j3, s3) = lemma_new_row(tets0, nb0, alive0, cavity, bnd, p, news, tets1, nb1, alive1, j2, k2);
                assert(j3 != j);
                assert(news[j3] != news[j]);
            }
        }
        lemma_first_slot_unique(nb1[o as int], nt, s2);
        lemma_cone_slot_verts(tets0, bnd, j, k, p);
        lemma_cone_slot_verts(tets0, bnd, j2, s2, p);
    }
}

/// The wiring law for the pointers of a tet that survives the re-fill.
proof fn lemma_wired_old(
    tets0: Seq<[u32; 4]>,
    nb0: Seq<[u32; 4]>,
    alive0: Seq<bool>,
    cavity: Seq<u32>,
    bnd: Seq<(u32, u8)>,
    p: u32,
    news: Seq<u32>,
    tets1: Seq<[u32; 4]>,
    nb1: Seq<[u32; 4]>,
    alive1: Seq<bool>,
    t: int,
    k: int,
)
    requires
        wiring_setup(tets0, nb0, alive0, cavity, bnd),
        refill_outcome(tets0, nb0, alive0, cavity, bnd, p, news, tets1, nb1, alive1),
        0 <= t < tets0.len(),
        alive0[t],
        !cavity.contains(t as u32),
        0 <= k < 4,
        nb1[t][k] != NONE,
    ensures
        ({
            let o = nb1[t][k] as int;
            &&& 0 <= o < nb1.len()
            &&& alive1[o]
            &&& first_slot(nb1[o], t as u32) < 4
            &&& face_verts(tets1[t], k) == face_verts(tets1[o], first_slot(nb1[o], t as u32))
        }),
{
    let n0 = tets0.len() as int;
    assert(tets1[t] == tets0[t]);
    if nb1[t][k] != nb0[t][k] {
        let j = choose|j: int|
            0 <= j < bnd.len() && across(nb0, bnd[j]) == t && nb0[t][k] == bnd[j].0 && nb1[t][k] == #[trigger] news[j];
        let o = news[j];
        let c = bnd[j].0;
        let i = bnd[j].1 as int;
        lemma_across_is_old(tets0, nb0, alive0, cavity, bnd, j);
        assert(fresh(alive0, n0, o as int));
        assert(nb1[o as int][3] == t);
        assert forall|k2: int| 0 <= k2 < 4 && k2 != 3 implies nb1[o as int][k2] != t by {
            let (j3, s3) = lemma_new_row(tets0, nb0, alive0, cavity, bnd, p, news, tets1, nb1, alive1, j, k2);
            assert(fresh(alive0, n0, news[j3] as int));
        }
        lemma_first_slot_unique(nb1[o as int], t as u32, 3);
        // `c` reaches `t` through face `i` only.
        assert(nb0[c as int][i] == t);
        let kt = first_slot(nb0[c as int], t as u32);
        assert(nb0[t][k] != NONE);
        assert(kt < 4);
        if kt != i {
            assert(nb0[c as int][kt] == t);
            assert(nb0[c as int][i] != nb0[c as int][kt]);
        }
        lemma_cone_slot_verts(tets0, bnd, j, 0, p);
    } else {
        let o = nb0[t][k];
        assert(o < n0 && alive0[o as int]);
        let ko = first_slot(nb0[o as int], t as u32);
        assert(ko < 4);
        assert(nb0[o as int][ko] == t);
        if cavity.contains(o) {
            assert(nb0[o as int][ko] == NONE || !cavity.contains(nb0[o as int][ko]));
            let j = choose|j: int| 0 <= j < bnd.len() && #[trigger] bnd[j] == (o, ko as u8);
            assert(across(nb0, bnd[j]) == t);
            let kk = choose|kk: int| 0 <= kk < 4 && nb1[t][kk] == news[j];
            assert(fresh(alive0, n0, news[j] as int));
            if nb1[t][kk] == nb0[t][kk] {
                assert(nb0[t][kk] != NONE);
                assert(alive0[nb0[t][kk] as int]);
            } else {
                let j2 = choose|j2: int|
                    0 <= j2 < bnd.len() && across(nb0, bnd[j2]) == t && nb0[t][kk] == bnd[j2].0 && nb1[t][kk]
                        == #[trigger] news[j2];
                assert(j2 == j);
                if kk != k {
                    assert(nb0[t][k] != nb0[t][kk]);
                }
            }
            assert(false);
        }
        assert(tets1[o as int] == tets0[o as int]);
        assert(alive1[o as int]);
        assert forall|k2: int| 0 <= k2 < 4 && nb1[o as int][k2] == t implies k2 == ko by {
            if nb1[o as int][k2] == nb0[o as int][k2] {
                if k2 != ko {
                    assert(nb0[o as int][ko] != nb0[o as int][k2]);
                }
            } else {
                let j2 = choose|j2: int|
                    0 <= j2 < bnd.len() && across(nb0, bnd[j2]) == o && nb0[o as int][k2] == bnd[j2].0
                        && nb1[o as int][k2] == #[trigger] news[j2];
                assert(fresh(alive0, n0, news[j2] as int));
            }
        }
        if nb1[o as int][ko] != nb0[o as int][ko] {
            let j2 = choose|j2: int|
                0 <= j2 < bnd.len() && across(nb0, bnd[j2]) == o && nb0[o as int][ko] == bnd[j2].0
                    && nb1[o as int][ko] == #[trigger] news[j2];
            lemma_across_is_old(tets0, nb0, alive0, cavity, bnd, j2);
            assert(false);
        }
        lemma_first_slot_unique(nb1[o as int], t as u32, ko);
    }
}

/// After the re-fill no live tet reaches another through two faces.
proof fn lemma_rows_distinct(
    tets0: Seq<[u32; 4]>,
    nb0: Seq<[u32; 4]>,
    alive0: Seq<bool>,
    cavity: Seq<u32>,
    bnd: Seq<(u32, u8)>,
    p: u32,
    news: Seq<u32>,
    tets1: Seq<[u32; 4]>,
    nb1: Seq<[u32; 4]>,
    alive1: Seq<bool>,
    t: int,
    k1: int,
    k2: int,
)
    requires
        wiring_setup(tets0, nb0, alive0, cavity, bnd),
        refill_outcome(tets0, nb0, alive0, cavity, bnd, p, news, tets1, nb1, alive1),
        0 <= t < tets1.len(),
        alive1[t],
        0 <= k1 < 4,
        0 <= k2 < 4,
        k1 != k2,
        nb1[t][k1] != NONE,
    ensures
        nb1[t][k1] != nb1[t][k2],
{
    let n0 = tets0.len() as int;
    if t < n0 && alive0[t] {
        if nb1[t][k1] != nb0[t][k1] {
            let j1 = choose|j1: int|
                0 <= j1 < bnd.len() && across(nb0, bnd[j1]) == t && nb0[t][k1] == bnd[j1].0 && nb1[t][k1]
                    == #[trigger] news[j1];
            assert(fresh(alive0, n0, news[j1] as int));
            lemma_across_is_old(tets0, nb0, alive0, cavity, bnd, j1);
            if nb1[t][k2] != nb0[t][k2] {
                let j2 = choose|j2: int|
                    0 <= j2 < bnd.len() && across(nb0, bnd[j2]) == t && nb0[t][k2] == bnd[j2].0 && nb1[t][k2]
                        == #[trigger] news[j2];
                if j1 == j2 {
                    assert(nb0[t][k1] == nb0[t][k2]);
                }
            } else if nb0[t][k2] != NONE {
                assert(alive0[nb0[t][k2] as int]);
            }
        } else {
            if nb1[t][k2] != nb0[t][k2] {
                let j2 = choose|j2: int|
                    0 <= j2 < bnd.len() && across(nb0, bnd[j2]) == t && nb0[t][k2] == bnd[j2].0 && nb1[t][k2]
                        == #[trigger] news[j2];
                assert(fresh(alive0, n0, news[j2] as int));
                assert(alive0[nb0[t][k1] as int]);
            }
        }
    } else {
        assert(news.contains(t as u32));
        let j = choose|j: int| 0 <= j < news.len() && news[j] == t as u32;
        lemma_across_is_old(tets0, nb0, alive0, cavity, bnd, j);
        if k1 < 3 && k2 < 3 {
            let (ja, sa) = lemma_new_row(tets0, nb0, alive0, cavity, bnd, p, news, tets1, nb1, alive1, j, k1);
            let (jb, sb) = lemma_new_row(tets0, nb0, alive0, cavity, bnd, p, news, tets1, nb1, alive1, j, k2);
            assert(ja != jb);
        } else if k1 < 3 {
            let (ja, sa) = lemma_new_row(tets0, nb0, alive0, cavity, bnd, p, news, tets1, nb1, alive1, j, k1);
            assert(fresh(alive0, n0, news[ja] as int));
        } else {
            let (jb, sb) = lemma_new_row(tets0, nb0, alive0, cavity, bnd, p, news, tets1, nb1, alive1, j, k2);
            assert(fresh(alive0, n0, news[jb] as int));
        }
    }
}

/// The wiring law of a re-fill: re-filling the exact boundary of a cavity
/// whose boundary is a closed surface keeps the slab's neighbor pointers
/// mutual.
proof fn lemma_refill_keeps_wiring(
    tets0: Seq<[u32; 4]>,
    nb0: Seq<[u32; 4]>,
    alive0: Seq<bool>,
    cavity: Seq<u32>,
    bnd: Seq<(u32, u8)>,
    p: u32,
    news: Seq<u32>,
    tets1: Seq<[u32; 4]>,
    nb1: Seq<[u32; 4]>,
    alive1: Seq<bool>,
)
    requires
        wiring_setup(tets0, nb0, alive0, cavity, bnd),
        refill_outcome(tets0, nb0, alive0, cavity, bnd, p, news, tets1, nb1, alive1),
    ensures
        wired(tets1, nb1, alive1),
{
    let n0 = tets0.len() as int;
    assert forall|t: int, k: int|
        #![trigger nb1[t][k]]
        0 <= t < nb1.len() && alive1[t] && 0 <= k < 4 && nb1[t][k] != NONE implies {
            let o = nb1[t][k] as int;
            &&& 0 <= o < nb1.len()
            &&& alive1[o]
            &&& first_slot(nb1[o], t as u32) < 4
            &&& face_verts(tets1[t], k) == face_verts(tets1[o], first_slot(nb1[o], t as u32))
        } by {
        if t < n0 && alive0[t] {
            assert(tets1[t] == tets0[t]);
            lemma_wired_old(tets0, nb0, alive0, cavity, bnd, p, news, tets1, nb1, alive1, t, k);
        } else {
            assert(news.contains(t as u32));
            let j = choose|j: int| 0 <= j < news.len() && news[j] == t as u32;
            lemma_wired_new(tets0, nb0, alive0, cavity, bnd, p, news, tets1, nb1, alive1, j, k);
        }
    }
    assert forall|t: int, k1: int, k2: int|
        0 <= t < nb1.len() && alive1[t] && 0 <= k1 < 4 && 0 <= k2 < 4 && k1 != k2 && #[trigger] nb1[t][k1] != NONE
            implies nb1[t][k1] != #[trigger] nb1[t][k2] by {
        lemma_rows_distinct(tets0, nb0, alive0, cavity, bnd, p, news, tets1, nb1, alive1, t, k1, k2);
    }
}

/// Face `i` of tet `ti` opens onto the hull or a tet outside the cavity
/// marked `epoch`.
pub open spec fn face_is_open(nb: Seq<[u32; 4]>, mark: Seq<u32>, ti: u32, i: int, epoch: u32) -> bool {
    nb[ti as int][i] == NONE || mark[nb[ti as int][i] as int] != epoch
}

proof fn lemma_tet_boundary_members(nb: Seq<[u32; 4]>, mark: Seq<u32>, ti: u32, epoch: u32)
    ensures
        forall|x: (u32, u8)|
            tet_boundary(nb, mark, ti, epoch).contains(x) <==> (x.0 == ti && x.1 < 4 && face_is_open(
                nb,
                mark,
                ti,
                x.1 as int,
                epoch,
            )),
{
    let s = tet_boundary(nb, mark, ti, epoch);
    assert forall|x: (u32, u8)|
        s.contains(x) <==> (x.0 == ti && x.1 < 4 && face_is_open(nb, mark, ti, x.1 as int, epoch)) by {
        if x.0 == ti && x.1 < 4 && face_is_open(nb, mark, ti, x.1 as int, epoch) {
            let open = |i: int| nb[ti as int][i] == NONE || mark[nb[ti as int][i] as int] != epoch;
            let s0 = if open(0) { seq![(ti, 0u8)] } else { Seq::<(u32, u8)>::empty() };
            let s1 = if open(1) { s0.push((ti, 1u8)) } else { s0 };
            let s2 = if open(2) { s1.push((ti, 2u8)) } else { s1 };
            assert(s == if open(3) { s2.push((ti, 3u8)) } else { s2 });
            if x.1 == 0 {
                assert(s0[0] == x);
                assert(s1[0] == x);
                assert(s2[0] == x);
                assert(s[0] == x);
            } else if x.1 == 1 {
                assert(s1[s1.len() - 1] == x);
                assert(s2[s1.len() - 1] == x);
                assert(s[s1.len() - 1] == x);
            } else if x.1 == 2 {
                assert(s2[s2.len() - 1] == x);
                assert(s[s2.len() - 1] == x);
            } else {
                assert(s[s.len() - 1] == x);
            }
        }
    }
}

pub(crate) proof fn lemma_boundary_upto_members(nb: Seq<[u32; 4]>, mark: Seq<u32>, cavity: Seq<u32>, epoch: u32, k: int)
    requires
        0 <= k <= cavity.len(),
    ensures
        forall|x: (u32, u8)|
            cavity_boundary_upto(nb, mark, cavity, epoch, k).contains(x) <==> exists|m: int|
                0 <= m < k && x.0 == cavity[m] && x.1 < 4 && face_is_open(nb, mark, cavity[m], x.1 as int, epoch),
    decreases k,
{
    if k > 0 {
        lemma_boundary_upto_members(nb, mark, cavity, epoch, k - 1);
        lemma_tet_boundary_members(nb, mark, cavity[k - 1], epoch);
        let prev = cavity_boundary_upto(nb, mark, cavity, epoch, k - 1);
        let tb = tet_boundary(nb, mark, cavity[k - 1], epoch);
        assert forall|x: (u32, u8)|
            (prev + tb).contains(x) <==> prev.contains(x) || tb.contains(x) by {
            if (prev + tb).contains(x) {
                let i = choose|i: int| 0 <= i < (prev + tb).len() && (prev + tb)[i] == x;
                if i < prev.len() {
                    assert(prev[i] == x);
                } else {
                    assert(tb[i - prev.len()] == x);
                }
            }
            if prev.contains(x) {
                let i = choose|i: int| 0 <= i < prev.len() && prev[i] == x;
                assert((prev + tb)[i] == x);
            }
            if tb.contains(x) {
                let i = choose|i: int| 0 <= i < tb.len() && tb[i] == x;
                assert((prev + tb)[prev.len() + i] == x);
            }
        }
        assert(cavity_boundary_upto(nb, mark, cavity, epoch, k) == prev + tb);
        assert forall|x: (u32, u8)|
            cavity_boundary_upto(nb, mark, cavity, epoch, k).contains(x) <==> exists|m: int|
                0 <= m < k && x.0 == cavity[m] && x.1 < 4 && face_is_open(nb, mark, cavity[m], x.1 as int, epoch) by {
            if prev.contains(x) {
                let m = choose|m: int|
                    0 <= m < k - 1 && x.0 == cavity[m] && x.1 < 4 && face_is_open(nb, mark, cavity[m], x.1 as int, epoch);
                assert(0 <= m < k && x.0 == cavity[m] && x.1 < 4 && face_is_open(nb, mark, cavity[m], x.1 as int, epoch));
            }
            if tb.contains(x) {
                assert(0 <= k - 1 < k && x.0 == cavity[k - 1] && x.1 < 4 && face_is_open(nb, mark, cavity[k - 1], x.1 as int, epoch));
            }
            if exists|m: int|
                0 <= m < k && x.0 == cavity[m] && x.1 < 4 && face_is_open(nb, mark, cavity[m], x.1 as int, epoch) {
                let m = choose|m: int|
                    0 <= m < k && x.0 == cavity[m] && x.1 < 4 && face_is_open(nb, mark, cavity[m], x.1 as int, epoch);
                if m < k - 1 {
                    assert(prev.contains(x));
                } else {
                    assert(tb.contains(x));
                }
            }
        }
    }
}

/// With the cavity tets exactly the tets marked `epoch`, the faces
/// [`TetSlab::cavity_boundary`] lists are exactly the boundary faces of the
/// cavity, as the re-fill wiring law asks of them.
pub proof fn lemma_marked_boundary_is_exact(nb: Seq<[u32; 4]>, mark: Seq<u32>, cavity: Seq<u32>, epoch: u32)
    requires
        mark.len() == nb.len(),
        forall|t: int, i: int| 0 <= t < nb.len() && 0 <= i < 4 ==> #[trigger] nb[t][i] == NONE || nb[t][i] < nb.len(),
        forall|c: int| 0 <= c < cavity.len() ==> (#[trigger] cavity[c]) < nb.len(),
        forall|t: int| 0 <= t < mark.len() ==> (#[trigger] mark[t] == epoch <==> cavity.contains(t as u32)),
    ensures
        is_cavity_boundary(nb, cavity, cavity_boundary_upto(nb, mark, cavity, epoch, cavity.len() as int)),
{
    let bnd = cavity_boundary_upto(nb, mark, cavity, epoch, cavity.len() as int);
    lemma_boundary_upto_members(nb, mark, cavity, epoch, cavity.len() as int);
    assert forall|j: int| 0 <= j < bnd.len() implies cavity.contains((#[trigger] bnd[j]).0) && (across(nb, bnd[j])
        == NONE || !cavity.contains(across(nb, bnd[j]))) by {
        assert(bnd.contains(bnd[j]));
        let m = choose|m: int|
            0 <= m < cavity.len() && bnd[j].0 == cavity[m] && bnd[j].1 < 4 && face_is_open(
                nb,
                mark,
                cavity[m],
                bnd[j].1 as int,
                epoch,
            );
        assert(cavity[m] < nb.len());
        let o = nb[cavity[m] as int][bnd[j].1 as int];
        if o != NONE {
            assert(o < nb.len());
            assert(mark[o as int] != epoch);
        }
    }
    assert forall|c: u32, i: int|
        cavity.contains(c) && 0 <= i < 4 && (#[trigger] nb[c as int][i] == NONE || !cavity.contains(nb[c as int][i]))
            implies exists|j: int| 0 <= j < bnd.len() && #[trigger] bnd[j] == (c, i as u8) by {
        let m = choose|m: int| 0 <= m < cavity.len() && cavity[m] == c;
        let o = nb[c as int][i];
        if o != NONE {
            assert(c < nb.len());
            assert(o < nb.len());
        }
        assert(face_is_open(nb, mark, c, i, epoch));
        assert(bnd.contains((c, i as u8)));
    }
}

/// `row` with entry `k` replaced by `v`.
pub open spec fn row_with(row: [u32; 4], k: int, v: u32) -> [u32; 4] {
    [
        if k == 0 { v } else { row[0] },
        if k == 1 { v } else { row[1] },
        if k == 2 { v } else { row[2] },
        if k == 3 { v } else { row[3] },
    ]
}

impl TetSlab {
    /// Sets neighbor pointer `k` of tet `t` to `v`.
    fn set_neighbor(&mut self, t: u32, k: usize, v: u32)
        requires
            old(self).wf(),
            t < old(self).tets@.len(),
            k < 4,
            v == NONE || v < old(self).tets@.len(),
        ensures
            final(self).wf(),
            final(self).neighbors@ == old(self).neighbors@.update(t as int, row_with(old(self).neighbors@[t as int], k as int, v)),
            final(self).tets@ == old(self).tets@,
            final(self).alive@ == old(self).alive@,
            final(self).free@ == old(self).free@,
            final(self).mark@ == old(self).mark@,
            final(self).new_tets@ == old(self).new_tets@,
            final(self).last == old(self).last,
    {
        let mut row = self.neighbors[t as usize];
        row[k] = v;
        proof {
            assert(row =~= row_with(old(self).neighbors@[t as int], k as int, v));
        }
        self.neighbors[t as usize] = row;
        proof {
            assert forall|x: int, i: int|
                #![trigger final(self).neighbors@[x][i]]
                0 <= x < final(self).tets@.len() && 0 <= i < 4 implies final(self).neighbors@[x][i] == NONE
                || final(self).neighbors@[x][i] < final(self).tets@.len() by {
                assert(old(self).neighbors@[x][i] == NONE || old(self).neighbors@[x][i] < old(self).tets@.len());
            }
        }
    }
}

impl TetSlab {
    /// Repoints the first neighbor pointer of tet `o` that references `from`
    /// to `to`.
    fn repoint(&mut self, o: u32, from: u32, to: u32)
        requires
            old(self).wf(),
            o < old(self).tets@.len(),
            to < old(self).tets@.len(),
            first_slot(old(self).neighbors@[o as int], from) < 4,
        ensures
            final(self).wf(),
            final(self).neighbors@ == old(self).neighbors@.update(
                o as int,
                row_with(old(self).neighbors@[o as int], first_slot(old(self).neighbors@[o as int], from), to),
            ),
            final(self).tets@ == old(self).tets@,
            final(self).alive@ == old(self).alive@,
            final(self).free@ == old(self).free@,
            final(self).mark@ == old(self).mark@,
            final(self).new_tets@ == old(self).new_tets@,
            final(self).last == old(self).last,
    {
        let on = self.neighbors[o as usize];
        let k: usize = if on[0] == from {
            0
        } else if on[1] == from {
            1
        } else if on[2] == from {
            2
        } else {
            3
        };
        self.set_neighbor(o, k, to);
    }

    /// Links new tet `nt` across edge `key` (its face slot `slot`) to the
    /// new tet recorded for that edge, or records `nt` for the edge.
    fn link_edge(&mut self, edge_map: &mut FxHashMap<[u32; 2], (u32, u8)>, nt: u32, key: [u32; 2], slot: u8)
        requires
            old(self).wf(),
            nt < old(self).tets@.len(),
            slot < 3,
            forall|k: [u32; 2]|
                #[trigger] old(edge_map)@.contains_key(k) ==> old(edge_map)@[k].0 < old(self).tets@.len()
                    && old(edge_map)@[k].1 < 3,
        ensures
            final(self).wf(),
            final(self).tets@ == old(self).tets@,
            final(self).alive@ == old(self).alive@,
            final(self).free@ == old(self).free@,
            final(self).mark@ == old(self).mark@,
            final(self).new_tets@ == old(self).new_tets@,
            final(self).last == old(self).last,
            final(self).neighbors@.len() == old(self).neighbors@.len(),
            forall|t: int, k: int|
                #![trigger final(self).neighbors@[t][k]]
                0 <= t < old(self).tets@.len() && 0 <= k < 4 && final(self).neighbors@[t][k] != old(
                    self,
                ).neighbors@[t][k] ==> k < 3 && (t == nt || (old(edge_map)@.contains_key(key) && t
                    == old(edge_map)@[key].0)),
            old(edge_map)@.contains_key(key) ==> final(edge_map)@ == old(edge_map)@,
            !old(edge_map)@.contains_key(key) ==> final(edge_map)@ == old(edge_map)@.insert(
                key,
                (nt, slot),
            ),
            old(edge_map)@.contains_key(key) ==> final(self).neighbors@[nt as int][slot as int]
                == old(edge_map)@[key].0,
            old(edge_map)@.contains_key(key) ==> final(self).neighbors@[old(edge_map)@[key].0 as int][old(
                edge_map,
            )@[key].1 as int] == nt,
            link_effect(old(self).neighbors@, old(edge_map)@, final(self).neighbors@, final(edge_map)@, nt, key, slot),
    {
        match fx_get(edge_map, &key) {
            Some(entry) => {
                let (ot, oslot) = entry;
                self.set_neighbor(nt, slot as usize, ot);
                self.set_neighbor(ot, oslot as usize, nt);
            },
            None => {
                fx_insert(edge_map, key, (nt, slot));
            },
        }
    }

    /// Allocates the tet coning `p` to face `fi` of cavity tet `ti`, records
    /// it as new, and wires it across that face to `outside` (and `outside`
    /// back to it in place of `ti`).
    #[verifier::rlimit(40)]
    fn place_cone(
        &mut self,
        p: u32,
        ti: u32,
        fi: u8,
        outside: u32,
        Ghost(alive0): Ghost<Seq<bool>>,
        Ghost(n0): Ghost<int>,
    ) -> (nt: u32)
        requires
            old(self).wf(),
            ti < old(self).tets@.len(),
            fi < 4,
            old(self).free@.len() > 0 || old(self).tets@.len() < NONE,
            n0 <= old(self).tets@.len(),
            alive0.len() == n0,
            forall|t: int| 0 <= t < n0 && alive0[t] ==> #[trigger] old(self).alive@[t],
            outside == NONE || (outside < n0 && alive0[outside as int] && first_slot(
                old(self).neighbors@[outside as int],
                ti,
            ) < 4),
        ensures
            final(self).wf(),
            fresh(alive0, n0, nt as int),
            nt < final(self).tets@.len(),
            old(self).free@.len() > 0 ==> {
                &&& nt == old(self).free@.last()
                &&& final(self).free@ == old(self).free@.drop_last()
                &&& final(self).tets@.len() == old(self).tets@.len()
            },
            old(self).free@.len() == 0 ==> {
                &&& nt == old(self).tets@.len()
                &&& final(self).free@ == old(self).free@
                &&& final(self).tets@.len() == old(self).tets@.len() + 1
            },
            final(self).tets@ == if old(self).free@.len() > 0 {
                old(self).tets@.update(nt as int, cone(old(self).tets@, (ti, fi), p))
            } else {
                old(self).tets@.push(cone(old(self).tets@, (ti, fi), p))
            },
            final(self).alive@ == if old(self).free@.len() > 0 {
                old(self).alive@.update(nt as int, true)
            } else {
                old(self).alive@.push(true)
            },
            final(self).new_tets@ == old(self).new_tets@.push(nt),
            final(self).last == old(self).last,
            final(self).neighbors@[nt as int][3] == outside,
            outside != NONE ==> final(self).neighbors@[outside as int] == row_with(
                old(self).neighbors@[outside as int],
                first_slot(old(self).neighbors@[outside as int], ti),
                nt,
            ),
            forall|t: int|
                0 <= t < old(self).tets@.len() && t != nt && t != outside ==> #[trigger] final(self).neighbors@[t]
                    == old(self).neighbors@[t],
    {
        let f = face(self.tets[ti as usize], fi as usize);
        let nt = self.alloc_tet([f[0], f[1], f[2], p]);
        proof {
            if old(self).free@.len() > 0 {
                let i = old(self).free@.len() - 1;
                assert(old(self).free@[i] == nt);
                assert(!old(self).alive@[nt as int]);
            }
            assert(fresh(alive0, n0, nt as int));
            assert(outside != NONE ==> outside != nt);
            assert([f[0], f[1], f[2], p] =~= cone(old(self).tets@, (ti, fi), p));
        }
        self.new_tets.push(nt);
        self.set_neighbor(nt, 3, outside);
        if outside != NONE {
            self.repoint(outside, ti, nt);
        }
        nt
    }

    /// Wires new tet `nt` to the new tets recorded in `edge_map` across its
    /// three base edges (face slots `0..3`), recording it for the edges not
    /// seen yet.
    #[verifier::rlimit(40)]
    fn link_cone(
        &mut self,
        edge_map: &mut FxHashMap<[u32; 2], (u32, u8)>,
        nt: u32,
        Ghost(alive0): Ghost<Seq<bool>>,
        Ghost(n0): Ghost<int>,
        Ghost(tets0): Ghost<Seq<[u32; 4]>>,
        Ghost(bnd): Ghost<Seq<(u32, u8)>>,
        Ghost(bi): Ghost<int>,
    )
        requires
            old(self).wf(),
            nt < old(self).tets@.len(),
            fresh(alive0, n0, nt as int),
            0 <= bi < bnd.len(),
            old(self).new_tets@.len() == bi + 1,
            old(self).new_tets@[bi] == nt,
            old(self).new_tets@.no_duplicates(),
            forall|j: int| 0 <= j <= bi ==> (#[trigger] old(self).new_tets@[j]) < old(self).tets@.len(),
            [old(self).tets@[nt as int][0], old(self).tets@[nt as int][1], old(self).tets@[nt as int][2]]
                == boundary_tri(tets0, bnd[bi]),
            edges_at_most_twice(tets0, bnd) ==> linked_upto(
                tets0,
                bnd,
                old(self).new_tets@,
                old(self).neighbors@,
                old(edge_map)@,
                bi,
                0,
            ),
            forall|key: [u32; 2]|
                #[trigger] old(edge_map)@.contains_key(key) ==> old(edge_map)@[key].0 < old(self).tets@.len()
                    && fresh(alive0, n0, old(edge_map)@[key].0 as int) && old(edge_map)@[key].1 < 3,
        ensures
            final(self).wf(),
            final(self).tets@ == old(self).tets@,
            final(self).alive@ == old(self).alive@,
            final(self).free@ == old(self).free@,
            final(self).new_tets@ == old(self).new_tets@,
            final(self).last == old(self).last,
            final(self).neighbors@.len() == old(self).neighbors@.len(),
            forall|t: int, k: int|
                #![trigger final(self).neighbors@[t][k]]
                0 <= t < old(self).tets@.len() && 0 <= k < 4 && final(self).neighbors@[t][k] != old(
                    self,
                ).neighbors@[t][k] ==> k < 3 && fresh(alive0, n0, t),
            forall|key: [u32; 2]|
                #[trigger] final(edge_map)@.contains_key(key) ==> {
                    let v = final(edge_map)@[key];
                    &&& v.0 < final(self).tets@.len()
                    &&& fresh(alive0, n0, v.0 as int)
                    &&& v.1 < 3
                },
            edges_at_most_twice(tets0, bnd) ==> linked_upto(
                tets0,
                bnd,
                final(self).new_tets@,
                final(self).neighbors@,
                final(edge_map)@,
                bi + 1,
                0,
            ),
    {
        let ghost news = self.new_tets@;
        let ghost twice = edges_at_most_twice(tets0, bnd);
        let ghost f = boundary_tri(tets0, bnd[bi]);
        let t = self.tets[nt as usize];
        let a0 = t[0];
        let a1 = t[1];
        let a2 = t[2];
        let ghost s4 = self.neighbors@;
        let ghost m4 = edge_map@;
        proof {
            assert(slot_key(tets0, bnd, bi, 2) == (if a0 <= a1 { [a0, a1] } else { [a1, a0] }));
            assert(slot_key(tets0, bnd, bi, 0) == (if a1 <= a2 { [a1, a2] } else { [a2, a1] }));
            assert(slot_key(tets0, bnd, bi, 1) == (if a2 <= a0 { [a2, a0] } else { [a0, a2] }));
        }
        self.link_edge(edge_map, nt, if a0 <= a1 { [a0, a1] } else { [a1, a0] }, 2);
        let ghost s5 = self.neighbors@;
        let ghost m5 = edge_map@;
        proof {
            if twice {
                lemma_link_step(tets0, bnd, news, bi, 0, s4, m4, s5, m5);
            }
        }
        self.link_edge(edge_map, nt, if a1 <= a2 { [a1, a2] } else { [a2, a1] }, 0);
        let ghost s6 = self.neighbors@;
        let ghost m6 = edge_map@;
        proof {
            if twice {
                lemma_link_step(tets0, bnd, news, bi, 1, s5, m5, s6, m6);
            }
        }
        self.link_edge(edge_map, nt, if a2 <= a0 { [a2, a0] } else { [a0, a2] }, 1);
        proof {
            if twice {
                lemma_link_step(tets0, bnd, news, bi, 2, s6, m6, self.neighbors@, edge_map@);
                lemma_linked_next_face(tets0, bnd, news, self.neighbors@, edge_map@, bi);
            }
        }
        proof {
            let s7 = self.neighbors@;
            assert forall|t: int, k: int|
                0 <= t < s4.len() && 0 <= k < 4 && #[trigger] s7[t][k] != s4[t][k] implies k < 3 && fresh(
                alive0,
                n0,
                t,
            ) by {
                if s5[t][k] != s4[t][k] {
                } else if s6[t][k] != s5[t][k] {
                } else {
                    assert(s7[t][k] != s6[t][k]);
                }
            }
        }
    }

    /// Cones `p` to face `fi` of cavity tet `ti`: allocates the new tet,
    /// wires it across that face to `outside` (and `outside` back to it in
    /// place of `ti`), and to the new tets already recorded in `edge_map`
    /// across its three boundary edges.
    #[verifier::rlimit(100)]
    fn cone_face(
        &mut self,
        edge_map: &mut FxHashMap<[u32; 2], (u32, u8)>,
        p: u32,
        ti: u32,
        fi: u8,
        outside: u32,
        Ghost(alive0): Ghost<Seq<bool>>,
        Ghost(n0): Ghost<int>,
        Ghost(tets0): Ghost<Seq<[u32; 4]>>,
        Ghost(bnd): Ghost<Seq<(u32, u8)>>,
        Ghost(bi): Ghost<int>,
    ) -> (nt: u32)
        requires
            old(self).wf(),
            ti < old(self).tets@.len(),
            fi < 4,
            old(self).free@.len() > 0 || old(self).tets@.len() < NONE,
            n0 <= old(self).tets@.len(),
            alive0.len() == n0,
            forall|t: int| 0 <= t < n0 && alive0[t] ==> #[trigger] old(self).alive@[t],
            outside == NONE || (outside < n0 && alive0[outside as int] && first_slot(
                old(self).neighbors@[outside as int],
                ti,
            ) < 4),
            forall|key: [u32; 2]|
                #[trigger] old(edge_map)@.contains_key(key) ==> old(edge_map)@[key].0 < old(self).tets@.len()
                    && fresh(alive0, n0, old(edge_map)@[key].0 as int) && old(edge_map)@[key].1 < 3,
            0 <= bi < bnd.len(),
            bnd[bi] == (ti, fi),
            ti < tets0.len(),
            old(self).tets@[ti as int] == tets0[ti as int],
            old(self).new_tets@.len() == bi,
            old(self).new_tets@.no_duplicates(),
            forall|j: int|
                0 <= j < bi ==> {
                    let x = #[trigger] old(self).new_tets@[j];
                    &&& x < old(self).tets@.len()
                    &&& !old(self).free@.contains(x)
                    &&& fresh(alive0, n0, x as int)
                },
            edges_at_most_twice(tets0, bnd) ==> linked_upto(
                tets0,
                bnd,
                old(self).new_tets@,
                old(self).neighbors@,
                old(edge_map)@,
                bi,
                0,
            ),
        ensures
            edges_at_most_twice(tets0, bnd) ==> linked_upto(
                tets0,
                bnd,
                final(self).new_tets@,
                final(self).neighbors@,
                final(edge_map)@,
                bi + 1,
                0,
            ),
            final(self).wf(),
            fresh(alive0, n0, nt as int),
            nt < final(self).tets@.len(),
            old(self).free@.len() > 0 ==> {
                &&& nt == old(self).free@.last()
                &&& final(self).free@ == old(self).free@.drop_last()
                &&& final(self).tets@.len() == old(self).tets@.len()
            },
            old(self).free@.len() == 0 ==> {
                &&& nt == old(self).tets@.len()
                &&& final(self).free@ == old(self).free@
                &&& final(self).tets@.len() == old(self).tets@.len() + 1
            },
            final(self).tets@ == if old(self).free@.len() > 0 {
                old(self).tets@.update(nt as int, cone(old(self).tets@, (ti, fi), p))
            } else {
                old(self).tets@.push(cone(old(self).tets@, (ti, fi), p))
            },
            final(self).alive@ == if old(self).free@.len() > 0 {
                old(self).alive@.update(nt as int, true)
            } else {
                old(self).alive@.push(true)
            },
            final(self).new_tets@ == old(self).new_tets@.push(nt),
            final(self).last == old(self).last,
            final(self).neighbors@[nt as int][3] == outside,
            outside != NONE ==> final(self).neighbors@[outside as int] == row_with(
                old(self).neighbors@[outside as int],
                first_slot(old(self).neighbors@[outside as int], ti),
                nt,
            ),
            forall|t: int, k: int|
                #![trigger final(self).neighbors@[t][k]]
                0 <= t < old(self).tets@.len() && 0 <= k < 4 && t != nt && t != outside
                    && final(self).neighbors@[t][k] != old(self).neighbors@[t][k] ==> k < 3 && fresh(
                    alive0,
                    n0,
                    t,
                ),
            forall|key: [u32; 2]|
                #[trigger] final(edge_map)@.contains_key(key) ==> {
                    let v = final(edge_map)@[key];
                    &&& v.0 < final(self).tets@.len()
                    &&& fresh(alive0, n0, v.0 as int)
                    &&& v.1 < 3
                },
    {
        let ghost old_news = self.new_tets@;
        let nt = self.place_cone(p, ti, fi, outside, Ghost(alive0), Ghost(n0));
        let ghost s4 = self.neighbors@;
        proof {
            let news = self.new_tets@;
            assert forall|j: int| 0 <= j < bi implies #[trigger] old_news[j] != nt by {
                if old(self).free@.len() > 0 {
                    assert(old(self).free@[old(self).free@.len() - 1] == nt);
                }
            }
            assert(news.no_duplicates()) by {
                assert forall|a: int, b: int| 0 <= a < news.len() && 0 <= b < news.len() && a != b implies news[a]
                    != news[b] by {
                    if a < bi && b < bi {
                        assert(old_news[a] != old_news[b]);
                    }
                }
            }
            assert forall|j: int| 0 <= j <= bi implies (#[trigger] news[j]) < self.tets@.len() by {
                if j < bi {
                    assert(news[j] == old_news[j]);
                }
            }
            assert([self.tets@[nt as int][0], self.tets@[nt as int][1], self.tets@[nt as int][2]] =~= boundary_tri(
                tets0,
                bnd[bi],
            ));
            if edges_at_most_twice(tets0, bnd) {
                assert forall|j: int, s: int, j2: int, s2: int|
                    0 <= j < bnd.len() && 0 <= s < 3 && processed(bi, 0, j, s) && processed(bi, 0, j2, s2)
                        && #[trigger] slot_partner(tets0, bnd, j, s, j2, s2) implies s4[news[j] as int][s]
                    == news[j2] by {
                    assert(news[j] == old_news[j]);
                    assert(news[j2] == old_news[j2]);
                    assert(old_news[j] != nt);
                    assert(fresh(alive0, n0, old_news[j] as int));
                    assert(s4[old_news[j] as int] == old(self).neighbors@[old_news[j] as int]);
                }
                assert forall|key: [u32; 2]| #[trigger] edge_map@.contains_key(key) implies exists|j: int, s: int|
                    0 <= j < bnd.len() && 0 <= s < 3 && processed(bi, 0, j, s) && #[trigger] slot_key(tets0, bnd, j, s)
                        == key && edge_map@[key] == (news[j], s as u8) by {
                    let (j, s) = choose|j: int, s: int|
                        0 <= j < bnd.len() && 0 <= s < 3 && processed(bi, 0, j, s) && #[trigger] slot_key(
                            tets0,
                            bnd,
                            j,
                            s,
                        ) == key && edge_map@[key] == (old_news[j], s as u8);
                    assert(news[j] == old_news[j]);
                }
            }
        }
        self.link_cone(edge_map, nt, Ghost(alive0), Ghost(n0), Ghost(tets0), Ghost(bnd), Ghost(bi));
        proof {
            let s7 = self.neighbors@;
            if outside != NONE {
                assert(!fresh(alive0, n0, outside as int));
                assert forall|k: int| 0 <= k < 4 implies #[trigger] s7[outside as int][k] == s4[outside as int][k] by {
                    if s7[outside as int][k] != s4[outside as int][k] {
                        assert(fresh(alive0, n0, outside as int));
                    }
                }
                assert(s7[outside as int] =~= s4[outside as int]);
            }
            assert forall|t: int, k: int|
                0 <= t < old(self).tets@.len() && 0 <= k < 4 && t != nt && t != outside
                    && #[trigger] s7[t][k] != old(self).neighbors@[t][k] implies k < 3 && fresh(alive0, n0, t) by {
                assert(s4[t] == old(self).neighbors@[t]);
            }
        }
        nt
    }

    /// Re-fill: cones `p` to each boundary face, wiring the new tets to the
    /// outside tets across the boundary and to each other across shared
    /// boundary edges, then retires the cavity tets to the free list.
    /// Returns the public index of `p`.
    #[verifier::rlimit(100)]
    pub fn refill(&mut self, p: u32, cavity: &Vec<u32>, boundary: &Vec<(u32, u8)>) -> (r: usize)
        requires
            refill_ready(*old(self), p, cavity@, boundary@),
        ensures
            r == p - 4,
            final(self).wf(),
            final(self).new_tets@.len() == boundary@.len(),
            final(self).new_tets@.no_duplicates(),
            final(self).last == final(self).new_tets@.last(),
            forall|j: int|
                0 <= j < boundary@.len() ==> {
                    let nt = #[trigger] final(self).new_tets@[j] as int;
                    &&& nt < final(self).tets@.len()
                    &&& !(nt < old(self).tets@.len() && old(self).alive@[nt])
                    &&& final(self).alive@[nt]
                    &&& final(self).tets@[nt] == cone(old(self).tets@, boundary@[j], p)
                    &&& final(self).neighbors@[nt][3] == across(old(self).neighbors@, boundary@[j])
                    &&& across(old(self).neighbors@, boundary@[j]) != NONE ==> exists|k: int|
                        0 <= k < 4 && final(self).neighbors@[across(old(self).neighbors@, boundary@[j]) as int][k]
                            == final(self).new_tets@[j]
                },
            forall|c: int| 0 <= c < cavity@.len() ==> !final(self).alive@[#[trigger] cavity@[c] as int],
            forall|t: int|
                0 <= t < old(self).tets@.len() && old(self).alive@[t] ==> final(self).tets@[t] == old(
                    self,
                ).tets@[t] && (final(self).alive@[t] <==> !cavity@.contains(t as u32)),
            refill_outcome(
                old(self).tets@,
                old(self).neighbors@,
                old(self).alive@,
                cavity@,
                boundary@,
                p,
                final(self).new_tets@,
                final(self).tets@,
                final(self).neighbors@,
                final(self).alive@,
            ),
            wired(old(self).tets@, old(self).neighbors@, old(self).alive@) && is_cavity_boundary(
                old(self).neighbors@,
                cavity@,
                boundary@,
            ) && closed_manifold(old(self).tets@, boundary@) ==> wired(
                final(self).tets@,
                final(self).neighbors@,
                final(self).alive@,
            ),
    {
        let ghost tets0 = self.tets@;
        let ghost nb0 = self.neighbors@;
        let ghost alive0 = self.alive@;
        let ghost free0 = self.free@;
        let ghost n0 = self.tets@.len() as int;
        let ghost bnd = boundary@;
        let mut edge_map: FxHashMap<[u32; 2], (u32, u8)> = fx_empty();
        self.new_tets.clear();
        let mut bi: usize = 0;
        while bi < boundary.len()
            invariant
                self.wf(),
                bnd == boundary@,
                bi <= bnd.len(),
                tets0.len() == n0,
                nb0.len() == n0,
                alive0.len() == n0,
                n0 + bnd.len() <= NONE,
                p >= 4,
                forall|j: int|
                    0 <= j < bnd.len() ==> (#[trigger] bnd[j]).0 < n0 && bnd[j].1 < 4
                        && alive0[bnd[j].0 as int],
                forall|j: int|
                    0 <= j < bnd.len() && #[trigger] across(nb0, bnd[j]) != NONE ==> {
                        let o = across(nb0, bnd[j]) as int;
                        &&& o < n0
                        &&& alive0[o]
                        &&& exists|k: int| 0 <= k < 4 && nb0[o][k] == bnd[j].0
                    },
                forall|j1: int, j2: int|
                    0 <= j1 < bnd.len() && 0 <= j2 < bnd.len() && j1 != j2 && across(
                        nb0,
                        #[trigger] bnd[j1],
                    ) != NONE && across(nb0, bnd[j1]) == across(nb0, #[trigger] bnd[j2])
                        ==> bnd[j1].0 != bnd[j2].0,
                forall|j1: int, j2: int|
                    0 <= j1 < bnd.len() && 0 <= j2 < bnd.len() ==> across(nb0, #[trigger] bnd[j1])
                        != (#[trigger] bnd[j2]).0,
                self.tets@.len() >= n0,
                self.tets@.len() + (bnd.len() - bi) <= NONE,
                self.free@.len() <= free0.len(),
                self.free@ == free0.take(self.free@.len() as int),
                free0.no_duplicates(),
                forall|i: int| 0 <= i < free0.len() ==> (#[trigger] free0[i]) < n0 && !alive0[free0[i] as int],
                self.new_tets@.len() == bi,
                self.new_tets@.no_duplicates(),
                forall|j: int|
                    0 <= j < bi ==> {
                        let nt = #[trigger] self.new_tets@[j] as int;
                        &&& nt < self.tets@.len()
                        &&& fresh(alive0, n0, nt)
                        &&& !self.free@.contains(nt as u32)
                        &&& self.alive@[nt]
                        &&& self.tets@[nt] == cone(tets0, bnd[j], p)
                        &&& self.neighbors@[nt][3] == across(nb0, bnd[j])
                        &&& across(nb0, bnd[j]) != NONE ==> exists|k: int|
                            0 <= k < 4 && self.neighbors@[across(nb0, bnd[j]) as int][k] == self.new_tets@[j]
                    },
                forall|t: int| 0 <= t < n0 && alive0[t] ==> #[trigger] self.tets@[t] == tets0[t],
                forall|t: int| 0 <= t < n0 && alive0[t] ==> #[trigger] self.alive@[t],
                forall|t: int|
                    0 <= t < self.tets@.len() && #[trigger] self.alive@[t] ==> (t < n0 && alive0[t])
                        || self.new_tets@.contains(t as u32),
                forall|t: int, k: int|
                    #![trigger self.neighbors@[t][k]]
                    0 <= t < n0 && alive0[t] && 0 <= k < 4 ==> self.neighbors@[t][k] == nb0[t][k] || (
                    exists|j: int|
                        0 <= j < bi && across(nb0, bnd[j]) == t && nb0[t][k] == bnd[j].0
                            && self.neighbors@[t][k] == #[trigger] self.new_tets@[j]),
                forall|key: [u32; 2]|
                    #[trigger] edge_map@.contains_key(key) ==> edge_map@[key].0 < self.tets@.len()
                        && fresh(alive0, n0, edge_map@[key].0 as int) && edge_map@[key].1 < 3,
                edges_at_most_twice(tets0, bnd) ==> linked_upto(
                    tets0,
                    bnd,
                    self.new_tets@,
                    self.neighbors@,
                    edge_map@,
                    bi as int,
                    0,
                ),
            decreases bnd.len() - bi,
        {
            let (ti, fi) = boundary[bi];
            let outside = self.neighbors[ti as usize][fi as usize];
            proof {
                assert(self.neighbors@[ti as int][fi as int] == nb0[ti as int][fi as int]) by {
                    if self.neighbors@[ti as int][fi as int] != nb0[ti as int][fi as int] {
                        let j = choose|j: int|
                            0 <= j < bi && across(nb0, bnd[j]) == ti && nb0[ti as int][fi as int] == bnd[j].0
                                && self.neighbors@[ti as int][fi as int] == #[trigger] self.new_tets@[j];
                        assert(across(nb0, bnd[j]) != bnd[bi as int].0);
                    }
                }
                assert(outside == across(nb0, bnd[bi as int]));
                if outside != NONE {
                    let j = bi as int;
                    let o = outside as int;
                    let k = choose|k: int| 0 <= k < 4 && nb0[o][k] == bnd[j].0;
                    if self.neighbors@[o][k] != nb0[o][k] {
                        let j2 = choose|j2: int|
                            0 <= j2 < bi && across(nb0, bnd[j2]) == o && nb0[o][k] == bnd[j2].0
                                && self.neighbors@[o][k] == #[trigger] self.new_tets@[j2];
                        assert(j2 != j);
                    }
                    assert(self.neighbors@[o][k] == ti);
                    assert(first_slot(self.neighbors@[o], ti) < 4);
                }
            }
            let ghost pre = (self.tets@, self.neighbors@, self.alive@, self.free@, self.new_tets@);
            let nt = self.cone_face(
                &mut edge_map,
                p,
                ti,
                fi,
                outside,
                Ghost(alive0),
                Ghost(n0),
                Ghost(tets0),
                Ghost(bnd),
                Ghost(bi as int),
            );
            proof {
                let ks = first_slot(pre.1[outside as int], ti);
                // The new tet is none of the earlier ones.
                assert forall|j: int| 0 <= j < bi implies #[trigger] pre.4[j] != nt by {
                    if pre.3.len() > 0 {
                        assert(pre.3[pre.3.len() - 1] == nt);
                    }
                }
                assert(!self.free@.contains(nt)) by {
                    if self.free@.contains(nt) {
                        let i = choose|i: int| 0 <= i < self.free@.len() && self.free@[i] == nt;
                        if pre.3.len() > 0 {
                            assert(pre.3[i] == pre.3[pre.3.len() - 1]);
                        } else {
                            assert(free0[i] == nt);
                        }
                    }
                }
                assert(self.tets@[nt as int] == cone(tets0, bnd[bi as int], p)) by {
                    assert(pre.0[ti as int] == tets0[ti as int]);
                }
                assert forall|j: int| 0 <= j <= bi implies {
                    let nt_j = #[trigger] self.new_tets@[j] as int;
                    &&& nt_j < self.tets@.len()
                    &&& fresh(alive0, n0, nt_j)
                    &&& !self.free@.contains(nt_j as u32)
                    &&& self.alive@[nt_j]
                    &&& self.tets@[nt_j] == cone(tets0, bnd[j], p)
                    &&& self.neighbors@[nt_j][3] == across(nb0, bnd[j])
                    &&& across(nb0, bnd[j]) != NONE ==> exists|k: int|
                        0 <= k < 4 && self.neighbors@[across(nb0, bnd[j]) as int][k] == self.new_tets@[j]
                } by {
                    if j < bi {
                        let nt_j = pre.4[j];
                        assert(self.new_tets@[j] == nt_j);
                        assert(nt_j != nt);
                        assert(!pre.3.contains(nt_j));
                        assert(!self.free@.contains(nt_j)) by {
                            if self.free@.contains(nt_j) {
                                let i = choose|i: int| 0 <= i < self.free@.len() && self.free@[i] == nt_j;
                                assert(pre.3[i] == nt_j);
                            }
                        }
                        assert(nt_j as int != outside as int);
                        let o = across(nb0, bnd[j]);
                        if o != NONE {
                            let k = choose|k: int| 0 <= k < 4 && pre.1[o as int][k] == nt_j;
                            if o == outside {
                                assert(pre.1[o as int][ks] == ti);
                                assert(k != ks);
                                assert(self.neighbors@[o as int][k] == nt_j);
                            } else {
                                assert(!fresh(alive0, n0, o as int));
                                assert(o != nt);
                                assert(self.neighbors@[o as int][k] == pre.1[o as int][k]);
                            }
                        }
                    } else {
                        if outside != NONE {
                            assert(self.neighbors@[outside as int][ks] == nt);
                        }
                    }
                }
                assert forall|t: int, k: int|
                    0 <= t < n0 && alive0[t] && 0 <= k < 4 implies #[trigger] self.neighbors@[t][k] == nb0[t][k]
                        || (exists|j: int|
                        0 <= j < bi + 1 && across(nb0, bnd[j]) == t && nb0[t][k] == bnd[j].0
                            && self.neighbors@[t][k] == #[trigger] self.new_tets@[j]) by {
                    assert(t != nt);
                    assert(!fresh(alive0, n0, t));
                    if self.neighbors@[t][k] != pre.1[t][k] {
                        assert(t == outside);
                        assert(k == ks);
                        assert(pre.1[t][k] == ti);
                        if pre.1[t][k] != nb0[t][k] {
                            let j2 = choose|j2: int|
                                0 <= j2 < bi && across(nb0, bnd[j2]) == t && nb0[t][k] == bnd[j2].0
                                    && pre.1[t][k] == #[trigger] pre.4[j2];
                            assert(fresh(alive0, n0, pre.4[j2] as int));
                        }
                        assert(self.new_tets@[bi as int] == nt);
                    } else if pre.1[t][k] != nb0[t][k] {
                        let j2 = choose|j2: int|
                            0 <= j2 < bi && across(nb0, bnd[j2]) == t && nb0[t][k] == bnd[j2].0
                                && pre.1[t][k] == #[trigger] pre.4[j2];
                        assert(self.new_tets@[j2] == pre.4[j2]);
                    }
                }
                assert forall|t: int| 0 <= t < n0 && alive0[t] implies #[trigger] self.tets@[t] == tets0[t] by {
                    assert(t != nt);
                }
                assert forall|t: int| 0 <= t < n0 && alive0[t] implies #[trigger] self.alive@[t] by {
                    assert(t != nt);
                }
                assert forall|t: int|
                    0 <= t < self.tets@.len() && #[trigger] self.alive@[t] implies (t < n0 && alive0[t])
                        || self.new_tets@.contains(t as u32) by {
                    if t == nt as int {
                        assert(self.new_tets@[bi as int] == nt);
                    } else {
                        assert(pre.2[t]);
                        if pre.4.contains(t as u32) {
                            let j = choose|j: int| 0 <= j < pre.4.len() && pre.4[j] == t as u32;
                            assert(self.new_tets@[j] == t as u32);
                        }
                    }
                }
                assert(self.new_tets@.no_duplicates()) by {
                    assert forall|a: int, b: int|
                        0 <= a < self.new_tets@.len() && 0 <= b < self.new_tets@.len() && a != b implies
                        self.new_tets@[a] != self.new_tets@[b] by {
                        if a < bi && b < bi {
                            assert(pre.4[a] != pre.4[b]);
                        }
                    }
                }
                if pre.3.len() > 0 {
                    assert(self.free@ =~= free0.take(self.free@.len() as int));
                }
            }
            bi += 1;
        }
        let ghost free_mid = self.free@;
        let ghost tets_mid = self.tets@;
        let ghost nb_mid = self.neighbors@;
        let ghost alive_mid = self.alive@;
        let ghost new_mid = self.new_tets@;
        let mut ci: usize = 0;
        while ci < cavity.len()
            invariant
                ci <= cavity@.len(),
                cavity@.no_duplicates(),
                self.wf(),
                forall|c: int| 0 <= c < cavity@.len() ==> (#[trigger] cavity@[c]) < n0 && alive0[cavity@[c] as int],
                self.free@ == free_mid + cavity@.take(ci as int),
                free_mid == free0.take(free_mid.len() as int),
                free_mid.len() <= free0.len(),
                forall|i: int| 0 <= i < free0.len() ==> (#[trigger] free0[i]) < n0 && !alive0[free0[i] as int],
                alive0.len() == n0,
                n0 <= tets_mid.len(),
                self.tets@ == tets_mid,
                self.neighbors@ == nb_mid,
                self.new_tets@ == new_mid,
                self.alive@.len() == alive_mid.len(),
                forall|t: int|
                    0 <= t < self.alive@.len() ==> #[trigger] self.alive@[t] == (alive_mid[t]
                        && !cavity@.take(ci as int).contains(t as u32)),
            decreases cavity@.len() - ci,
        {
            let ti = cavity[ci];
            proof {
                assert(!self.free@.contains(ti)) by {
                    if self.free@.contains(ti) {
                        let i = choose|i: int| 0 <= i < self.free@.len() && self.free@[i] == ti;
                        if i < free_mid.len() {
                            assert(free_mid[i] == ti);
                            assert(free0[i] == ti);
                        } else {
                            let c = i - free_mid.len();
                            assert(cavity@.take(ci as int)[c] == ti);
                            assert(cavity@[c] == cavity@[ci as int]);
                        }
                    }
                }
            }
            self.alive.set(ti as usize, false);
            self.free.push(ti);
            proof {
                assert(cavity@.take(ci + 1) =~= cavity@.take(ci as int).push(ti));
                assert forall|t: int| 0 <= t < self.alive@.len() implies #[trigger] self.alive@[t] == (alive_mid[t]
                    && !cavity@.take(ci + 1).contains(t as u32)) by {
                    if t == ti as int {
                        assert(cavity@.take(ci + 1)[ci as int] == ti);
                    } else {
                        if cavity@.take(ci + 1).contains(t as u32) {
                            let c = choose|c: int| 0 <= c < ci + 1 && #[trigger] cavity@.take(ci + 1)[c] == t as u32;
                            assert(c < ci);
                            assert(cavity@.take(ci as int)[c] == t as u32);
                        }
                    }
                }
                assert(self.free@.no_duplicates());
            }
            ci += 1;
        }
        proof {
            assert(cavity@.take(cavity@.len() as int) =~= cavity@);
            assert forall|j: int| 0 <= j < boundary@.len() implies !cavity@.contains(#[trigger] new_mid[j]) by {
                if cavity@.contains(new_mid[j]) {
                    let c = choose|c: int| 0 <= c < cavity@.len() && cavity@[c] == new_mid[j];
                    assert(fresh(alive0, n0, new_mid[j] as int));
                }
            }
        }
        proof {
            assert forall|j: int| 0 <= j < boundary@.len() implies {
                let nt = #[trigger] self.new_tets@[j] as int;
                &&& nt < self.tets@.len()
                &&& !(nt < old(self).tets@.len() && old(self).alive@[nt])
                &&& self.alive@[nt]
                &&& self.tets@[nt] == cone(old(self).tets@, boundary@[j], p)
                &&& self.neighbors@[nt][3] == across(old(self).neighbors@, boundary@[j])
                &&& across(old(self).neighbors@, boundary@[j]) != NONE ==> exists|k: int|
                    0 <= k < 4 && self.neighbors@[across(old(self).neighbors@, boundary@[j]) as int][k]
                        == self.new_tets@[j]
            } by {
                let nt = new_mid[j];
                assert(self.new_tets@[j] == nt);
                assert(fresh(alive0, n0, nt as int));
                assert(alive_mid[nt as int]);
                assert(!cavity@.contains(nt));
                assert(self.alive@[nt as int]);
            }
            assert forall|t: int| 0 <= t < old(self).tets@.len() && old(self).alive@[t] implies self.tets@[t]
                == old(self).tets@[t] && (self.alive@[t] <==> !cavity@.contains(t as u32)) by {
                assert(tets_mid[t] == tets0[t]);
                assert(alive_mid[t]);
                assert(self.alive@[t] == (alive_mid[t] && !cavity@.take(cavity@.len() as int).contains(t as u32)));
            }
            assert forall|t: int| 0 <= t < self.tets@.len() && #[trigger] self.alive@[t] implies (t < n0 && alive0[t])
                || self.new_tets@.contains(t as u32) by {
                assert(alive_mid[t]);
            }
            assert forall|t: int, k: int|
                #![trigger self.neighbors@[t][k]]
                0 <= t < n0 && alive0[t] && 0 <= k < 4 implies self.neighbors@[t][k] == nb0[t][k] || (exists|j: int|
                    0 <= j < bnd.len() && across(nb0, bnd[j]) == t && nb0[t][k] == bnd[j].0 && self.neighbors@[t][k]
                        == #[trigger] self.new_tets@[j]) by {
                assert(nb_mid[t][k] == self.neighbors@[t][k]);
            }
            if edges_at_most_twice(tets0, bnd) {
                assert forall|j: int, s: int, j2: int, s2: int|
                    0 <= j < bnd.len() && 0 <= s < 3 && #[trigger] slot_partner(tets0, bnd, j, s, j2, s2) implies self.neighbors@[self.new_tets@[j] as int][s]
                    == self.new_tets@[j2] by {
                    assert(processed(bnd.len() as int, 0, j, s));
                    assert(processed(bnd.len() as int, 0, j2, s2));
                }
            }
            assert(refill_outcome(
                tets0,
                nb0,
                alive0,
                cavity@,
                bnd,
                p,
                self.new_tets@,
                self.tets@,
                self.neighbors@,
                self.alive@,
            ));
            if wired(tets0, nb0, alive0) && is_cavity_boundary(nb0, cavity@, bnd) && closed_manifold(tets0, bnd) {
                lemma_refill_keeps_wiring(
                    tets0,
                    nb0,
                    alive0,
                    cavity@,
                    bnd,
                    p,
                    self.new_tets@,
                    self.tets@,
                    self.neighbors@,
                    self.alive@,
                );
            }
        }
        self.last = self.new_tets[self.new_tets.len() - 1];
        (p - 4) as usize
    }

    /// The tet in slot `s` in public indices, if the slot holds a live tet
    /// without super-tet corners.
    pub fn tet_at(&self, s: u32) -> (r: Option<[usize; 4]>)
        requires
            self.wf(),
        ensures
            r == slab_tet_at(self.tets@, self.alive@, s),
    {
        if (s as usize) < self.tets.len() && self.alive[s as usize] {
            let t = self.tets[s as usize];
            if t[0] >= 4 && t[1] >= 4 && t[2] >= 4 && t[3] >= 4 {
                return Some([(t[0] - 4) as usize, (t[1] - 4) as usize, (t[2] - 4) as usize, (t[3] - 4) as usize]);
            }
        }
        None
    }

    /// The tet across face `i` of slot `s`, if any (`None` on the hull).
    pub fn neighbor_at(&self, s: u32, i: usize) -> (r: Option<u32>)
        requires
            self.wf(),
            s < self.tets@.len(),
            i < 4,
        ensures
            r == slab_neighbor_at(self.neighbors@, s, i as int),
    {
        let nb = self.neighbors[s as usize][i];
        if nb == NONE {
            None
        } else {
            Some(nb)
        }
    }

    /// Current real tets (super-corner tets excluded), in public indices.
    pub fn tets(&self) -> (r: Vec<[usize; 4]>)
        requires
            self.wf(),
        ensures
            r@ == real_tets(self.tets@, self.alive@, self.tets@.len() as int),
    {
        let mut out: Vec<[usize; 4]> = Vec::new();
        let mut ti: usize = 0;
        while ti < self.tets.len()
            invariant
                self.wf(),
                ti <= self.tets@.len(),
                out@ == real_tets(self.tets@, self.alive@, ti as int),
            decreases self.tets@.len() - ti,
        {
            let t = self.tets[ti];
            if self.alive[ti] && t[0] >= 4 && t[1] >= 4 && t[2] >= 4 && t[3] >= 4 {
                out.push([(t[0] - 4) as usize, (t[1] - 4) as usize, (t[2] - 4) as usize, (t[3] - 4) as usize]);
            }
            ti += 1;
        }
        out
    }

    /// The all-real faces of super-corner tets: the convex-hull boundary of
    /// the inserted points, each paired with the super corner on its far
    /// side.
    pub fn hull_faces(&self) -> (r: Vec<([usize; 3], u32)>)
        requires
            self.wf(),
        ensures
            r@ == hull_faces_upto(self.tets@, self.alive@, self.tets@.len() as int),
    {
        let mut out: Vec<([usize; 3], u32)> = Vec::new();
        let mut ti: usize = 0;
        while ti < self.tets.len()
            invariant
                self.wf(),
                ti <= self.tets@.len(),
                out@ == hull_faces_upto(self.tets@, self.alive@, ti as int),
            decreases self.tets@.len() - ti,
        {
            let t = self.tets[ti];
            if self.alive[ti] {
                let n = (if t[0] < 4 { 1usize } else { 0 }) + (if t[1] < 4 { 1usize } else { 0 })
                    + (if t[2] < 4 { 1usize } else { 0 }) + (if t[3] < 4 { 1usize } else { 0 });
                if n == 1 {
                    let i: usize = if t[0] < 4 {
                        0
                    } else if t[1] < 4 {
                        1
                    } else if t[2] < 4 {
                        2
                    } else {
                        3
                    };
                    let f = face(t, i);
                    out.push(([(f[0] - 4) as usize, (f[1] - 4) as usize, (f[2] - 4) as usize], t[i]));
                }
            }
            ti += 1;
        }
        out
    }

    /// Boundary faces of the cavity `cavity` (its tets carry mark `epoch`):
    /// every face of a cavity tet whose neighbor is the hull or not in the
    /// cavity, as `(tet, face)` in cavity order.
    pub fn cavity_boundary(&self, cavity: &Vec<u32>, epoch: u32) -> (r: Vec<(u32, u8)>)
        requires
            self.wf(),
            forall|c: int| 0 <= c < cavity@.len() ==> (#[trigger] cavity@[c]) < self.tets@.len(),
        ensures
            r@ == cavity_boundary_upto(self.neighbors@, self.mark@, cavity@, epoch, cavity@.len() as int),
    {
        let mut out: Vec<(u32, u8)> = Vec::new();
        let mut ci: usize = 0;
        while ci < cavity.len()
            invariant
                self.wf(),
                forall|c: int| 0 <= c < cavity@.len() ==> (#[trigger] cavity@[c]) < self.tets@.len(),
                ci <= cavity@.len(),
                out@ == cavity_boundary_upto(self.neighbors@, self.mark@, cavity@, epoch, ci as int),
            decreases cavity@.len() - ci,
        {
            let ti = cavity[ci];
            let ghost before = out@;
            let nbs = self.neighbors[ti as usize];
            proof {
                assert(forall|i: int| 0 <= i < 4 ==> nbs[i] == NONE || nbs[i] < self.tets@.len());
            }
            if nbs[0] == NONE || self.mark[nbs[0] as usize] != epoch {
                out.push((ti, 0u8));
            }
            if nbs[1] == NONE || self.mark[nbs[1] as usize] != epoch {
                out.push((ti, 1u8));
            }
            if nbs[2] == NONE || self.mark[nbs[2] as usize] != epoch {
                out.push((ti, 2u8));
            }
            if nbs[3] == NONE || self.mark[nbs[3] as usize] != epoch {
                out.push((ti, 3u8));
            }
            proof {
                assert(out@ =~= before + tet_boundary(self.neighbors@, self.mark@, ti, epoch));
            }
            ci += 1;
        }
        out
    }
}

/// `(ti, i)` is one of the cavity boundary faces.
pub open spec fn is_boundary_face(boundary: Seq<(u32, u8)>, ti: u32, i: int) -> bool {
    exists|j: int| 0 <= j < boundary.len() && boundary[j].0 == ti && boundary[j].1 as int == i
}

/// The edge `{a, b}` as `[min, max]`.
pub open spec fn edge_key_of(a: u32, b: u32) -> [u32; 2] {
    if a <= b {
        [a, b]
    } else {
        [b, a]
    }
}

/// Edge `e` (`0..3`) of triangle `f`: `f[e]` to the next vertex, keyed.
pub open spec fn tri_edge_key(f: [u32; 3], e: int) -> [u32; 2] {
    if e == 0 {
        edge_key_of(f[0], f[1])
    } else if e == 1 {
        edge_key_of(f[1], f[2])
    } else {
        edge_key_of(f[2], f[0])
    }
}

/// The face of slab tet `b.0` opposite its vertex `b.1`, wound outward.
pub open spec fn boundary_tri(tets: Seq<[u32; 4]>, b: (u32, u8)) -> [u32; 3] {
    oriented_face_of(tets[b.0 as int], b.1 as int)
}

/// Edge `key` lies on a boundary face: re-coning keeps it.
pub open spec fn is_surviving_edge(tets: Seq<[u32; 4]>, boundary: Seq<(u32, u8)>, key: [u32; 2]) -> bool {
    exists|j: int, e: int|
        0 <= j < boundary.len() && 0 <= e < 3 && #[trigger] tri_edge_key(boundary_tri(tets, boundary[j]), e)
            == key
}

/// The face removed with cavity tet `ti` at local face `i`, if any: an
/// interior (non-boundary) face away from the super-tet corners, in sorted
/// public indices.
pub open spec fn face_removal(tets: Seq<[u32; 4]>, boundary: Seq<(u32, u8)>, ti: u32, i: int) -> Seq<Removal> {
    let f = oriented_face_of(tets[ti as int], i);
    if !is_boundary_face(boundary, ti, i) && f[0] >= 4 && f[1] >= 4 && f[2] >= 4 {
        seq![Removal::Face(face_key([(f[0] - 4) as usize, (f[1] - 4) as usize, (f[2] - 4) as usize]))]
    } else {
        Seq::empty()
    }
}

/// Local vertex pair `m` (`0..6`) of a tet, in the order `i < j`
/// lexicographically.
pub open spec fn tet_pair(m: int) -> (int, int) {
    if m == 0 {
        (0, 1)
    } else if m == 1 {
        (0, 2)
    } else if m == 2 {
        (0, 3)
    } else if m == 3 {
        (1, 2)
    } else if m == 4 {
        (1, 3)
    } else {
        (2, 3)
    }
}

/// The edge removed with cavity tet `ti` at local pair `m`, if any: an
/// edge between inserted points on no boundary face.
pub open spec fn edge_removal(tets: Seq<[u32; 4]>, boundary: Seq<(u32, u8)>, ti: u32, m: int) -> Seq<Removal> {
    let t = tets[ti as int];
    let key = edge_key_of(t[tet_pair(m).0], t[tet_pair(m).1]);
    if key[0] >= 4 && !is_surviving_edge(tets, boundary, key) {
        seq![Removal::Edge((key[0] - 4) as usize, (key[1] - 4) as usize)]
    } else {
        Seq::empty()
    }
}

/// The face removals of tet `ti` over its first `k` local faces.
pub open spec fn face_removals_upto(tets: Seq<[u32; 4]>, boundary: Seq<(u32, u8)>, ti: u32, k: int) -> Seq<Removal>
    decreases k,
{
    if k <= 0 {
        Seq::empty()
    } else {
        face_removals_upto(tets, boundary, ti, k - 1) + face_removal(tets, boundary, ti, k - 1)
    }
}

/// The edge removals of tet `ti` over its first `k` local vertex pairs.
pub open spec fn edge_removals_upto(tets: Seq<[u32; 4]>, boundary: Seq<(u32, u8)>, ti: u32, k: int) -> Seq<Removal>
    decreases k,
{
    if k <= 0 {
        Seq::empty()
    } else {
        edge_removals_upto(tets, boundary, ti, k - 1) + edge_removal(tets, boundary, ti, k - 1)
    }
}

/// Everything an insertion would remove, cavity tet by cavity tet (first
/// `k` of them): each tet's interior faces, then its interior edges.
pub open spec fn removals_upto(tets: Seq<[u32; 4]>, boundary: Seq<(u32, u8)>, cavity: Seq<u32>, k: int) -> Seq<Removal>
    decreases k,
{
    if k <= 0 {
        Seq::empty()
    } else {
        removals_upto(tets, boundary, cavity, k - 1) + face_removals_upto(tets, boundary, cavity[k - 1], 4)
            + edge_removals_upto(tets, boundary, cavity[k - 1], 6)
    }
}

impl TetSlab {
    /// The faces and edges that re-filling cavity `cavity` with boundary
    /// `boundary` would remove, in the order a guarded insertion offers
    /// them to its veto: per cavity tet, its non-boundary faces without a
    /// super-tet corner, then its edges between inserted points that lie on
    /// no boundary face.
    pub fn guarded_removals(&self, cavity: &Vec<u32>, boundary: &Vec<(u32, u8)>) -> (r: Vec<Removal>)
        requires
            self.wf(),
            forall|c: int| 0 <= c < cavity@.len() ==> (#[trigger] cavity@[c]) < self.tets@.len(),
            forall|j: int|
                0 <= j < boundary@.len() ==> (#[trigger] boundary@[j]).0 < self.tets@.len() && boundary@[j].1 < 4,
        ensures
            r@ == removals_upto(self.tets@, boundary@, cavity@, cavity@.len() as int),
    {
        let mut edges: FxHashSet<[u32; 2]> = fx_set_empty();
        let mut bfaces: FxHashSet<[u32; 2]> = fx_set_empty();
        let mut bi: usize = 0;
        while bi < boundary.len()
            invariant
                self.wf(),
                bi <= boundary@.len(),
                forall|j: int|
                    0 <= j < boundary@.len() ==> (#[trigger] boundary@[j]).0 < self.tets@.len() && boundary@[j].1 < 4,
                forall|x: [u32; 2]|
                    bfaces@.contains(x) <==> exists|j: int|
                        0 <= j < bi && #[trigger] boundary@[j] == (x[0], x[1] as u8) && x[1] < 4,
                forall|x: [u32; 2]|
                    #[trigger] edges@.contains(x) <==> exists|j: int, e: int|
                        0 <= j < bi && 0 <= e < 3 && #[trigger] tri_edge_key(boundary_tri(self.tets@, boundary@[j]), e)
                            == x,
            decreases boundary@.len() - bi,
        {
            let (ti, fi) = boundary[bi];
            fx_set_insert(&mut bfaces, [ti, fi as u32]);
            let f = face(self.tets[ti as usize], fi as usize);
            let k0 = if f[0] <= f[1] { [f[0], f[1]] } else { [f[1], f[0]] };
            let k1 = if f[1] <= f[2] { [f[1], f[2]] } else { [f[2], f[1]] };
            let k2 = if f[2] <= f[0] { [f[2], f[0]] } else { [f[0], f[2]] };
            fx_set_insert(&mut edges, k0);
            fx_set_insert(&mut edges, k1);
            fx_set_insert(&mut edges, k2);
            proof {
                let b = boundary@[bi as int];
                assert(f == boundary_tri(self.tets@, b));
                assert(k0 == tri_edge_key(f, 0));
                assert(k1 == tri_edge_key(f, 1));
                assert(k2 == tri_edge_key(f, 2));
                assert forall|x: [u32; 2]|
                    bfaces@.contains(x) <==> exists|j: int|
                        0 <= j < bi + 1 && #[trigger] boundary@[j] == (x[0], x[1] as u8) && x[1] < 4 by {
                    if x == [ti, fi as u32] {
                        assert(boundary@[bi as int] == (x[0], x[1] as u8));
                    }
                    if exists|j: int| 0 <= j < bi + 1 && #[trigger] boundary@[j] == (x[0], x[1] as u8) && x[1] < 4 {
                        let j = choose|j: int| 0 <= j < bi + 1 && #[trigger] boundary@[j] == (x[0], x[1] as u8) && x[1] < 4;
                        if j == bi {
                            assert(x =~= [ti, fi as u32]);
                        }
                    }
                }
                assert forall|x: [u32; 2]|
                    #[trigger] edges@.contains(x) <==> exists|j: int, e: int|
                        0 <= j < bi + 1 && 0 <= e < 3 && #[trigger] tri_edge_key(boundary_tri(self.tets@, boundary@[j]), e)
                            == x by {
                    if x == k0 {
                        assert(tri_edge_key(boundary_tri(self.tets@, boundary@[bi as int]), 0) == x);
                    }
                    if x == k1 {
                        assert(tri_edge_key(boundary_tri(self.tets@, boundary@[bi as int]), 1) == x);
                    }
                    if x == k2 {
                        assert(tri_edge_key(boundary_tri(self.tets@, boundary@[bi as int]), 2) == x);
                    }
                }
            }
            bi += 1;
        }
        let mut out: Vec<Removal> = Vec::new();
        let mut ci: usize = 0;
        while ci < cavity.len()
            invariant
                self.wf(),
                ci <= cavity@.len(),
                forall|c: int| 0 <= c < cavity@.len() ==> (#[trigger] cavity@[c]) < self.tets@.len(),
                forall|j: int|
                    0 <= j < boundary@.len() ==> (#[trigger] boundary@[j]).0 < self.tets@.len() && boundary@[j].1 < 4,
                forall|x: [u32; 2]|
                    bfaces@.contains(x) <==> exists|j: int|
                        0 <= j < boundary@.len() && #[trigger] boundary@[j] == (x[0], x[1] as u8) && x[1] < 4,
                forall|x: [u32; 2]| #[trigger] edges@.contains(x) <==> is_surviving_edge(self.tets@, boundary@, x),
                out@ == removals_upto(self.tets@, boundary@, cavity@, ci as int),
            decreases cavity@.len() - ci,
        {
            let ti = cavity[ci];
            let t = self.tets[ti as usize];
            let ghost before = out@;
            let mut i: usize = 0;
            while i < 4
                invariant
                    i <= 4,
                    ti < self.tets@.len(),
                    t == self.tets@[ti as int],
                    forall|x: [u32; 2]|
                        bfaces@.contains(x) <==> exists|j: int|
                            0 <= j < boundary@.len() && #[trigger] boundary@[j] == (x[0], x[1] as u8) && x[1] < 4,
                    out@ == before + face_removals_upto(self.tets@, boundary@, ti, i as int),
                decreases 4 - i,
            {
                let f = face(t, i);
                let is_b = fx_set_contains(&bfaces, &[ti, i as u32]);
                proof {
                    assert(is_b == is_boundary_face(boundary@, ti, i as int)) by {
                        if is_b {
                            let j = choose|j: int|
                                0 <= j < boundary@.len() && #[trigger] boundary@[j] == (ti, i as u8) && (i as u32) < 4;
                            assert(boundary@[j].0 == ti && boundary@[j].1 as int == i);
                        }
                        if is_boundary_face(boundary@, ti, i as int) {
                            let j = choose|j: int|
                                0 <= j < boundary@.len() && boundary@[j].0 == ti && boundary@[j].1 as int == i;
                            assert(boundary@[j] == (ti, i as u8));
                            assert(bfaces@.contains([ti, i as u32]));
                        }
                    }
                }
                if !is_b && f[0] >= 4 && f[1] >= 4 && f[2] >= 4 {
                    let pf = sorted3([(f[0] - 4) as usize, (f[1] - 4) as usize, (f[2] - 4) as usize]);
                    out.push(Removal::Face(pf));
                }
                proof {
                    assert(out@ =~= before + face_removals_upto(self.tets@, boundary@, ti, i + 1));
                }
                i += 1;
            }
            let ghost mid = out@;
            let mut m: usize = 0;
            while m < 6
                invariant
                    m <= 6,
                    ti < self.tets@.len(),
                    t == self.tets@[ti as int],
                    forall|x: [u32; 2]| #[trigger] edges@.contains(x) <==> is_surviving_edge(self.tets@, boundary@, x),
                    out@ == mid + edge_removals_upto(self.tets@, boundary@, ti, m as int),
                decreases 6 - m,
            {
                let (pi, pj): (usize, usize) = if m == 0 {
                    (0, 1)
                } else if m == 1 {
                    (0, 2)
                } else if m == 2 {
                    (0, 3)
                } else if m == 3 {
                    (1, 2)
                } else if m == 4 {
                    (1, 3)
                } else {
                    (2, 3)
                };
                let key = if t[pi] <= t[pj] { [t[pi], t[pj]] } else { [t[pj], t[pi]] };
                proof {
                    assert(tet_pair(m as int) == (pi as int, pj as int));
                    assert(key == edge_key_of(t[pi as int], t[pj as int]));
                }
                if key[0] >= 4 && !fx_set_contains(&edges, &key) {
                    out.push(Removal::Edge((key[0] - 4) as usize, (key[1] - 4) as usize));
                }
                proof {
                    assert(out@ =~= mid + edge_removals_upto(self.tets@, boundary@, ti, m + 1));
                }
                m += 1;
            }
            proof {
                assert(out@ =~= removals_upto(self.tets@, boundary@, cavity@, ci + 1));
            }
            ci += 1;
        }
        out
    }
}

} // verus!
