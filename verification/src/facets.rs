//! The combinatorial sweep of facet recovery: which tets of the
//! triangulation an edge of pierces a facet, the face-connected cavity of
//! piercing tets that is re-tetrahedralized next, the bounded sweep that
//! gathers candidate tets around the facet, and the checks on the facet's
//! boundary chains. Plane sides and orientations come from exact-predicate
//! oracles; the bounding-box overlap of a tet with the facet from a
//! geometric oracle.
use crate::cdt::{is_side_oracle, retet_built, retet_cavity, retet_fails, side_by, some_face_splits_badly, some_slot_dead, FacetRef};
use crate::chains::{edge_answer, is_edge_oracle, SegmentChains};
use crate::delaunay::{slab_neighbor_at, slab_tet_at, TetSlab};
use crate::fxmap::{fx_set_contains, fx_set_empty, fx_set_insert};
use crate::cdt::is_orient2_oracle;
use crate::recover::{is_cavity_vertex, is_insphere_oracle, is_orient_oracle, orient_of, orient_sign, Sign};
use crate::regions::tet_face_key;
use crate::topology::{face_key, sorted3};
use rustc_hash::FxHashSet;
use vstd::prelude::*;

verus! {

broadcast use vstd::array::group_array_axioms;

/// The open edge `(u, v)` pierces the facet `f`: its ends lie strictly on
/// opposite sides of the facet plane and it turns the same strict way
/// around all three sides of the facet, so it crosses the facet's interior.
pub open spec fn edge_pierces<Q: Fn(usize) -> Sign, F: Fn(usize, usize, usize, usize) -> Sign>(
    side: Q,
    o: F,
    f: [usize; 3],
    u: usize,
    v: usize,
) -> bool {
    let s1 = orient_sign(o, u, v, f[0], f[1]);
    &&& side_by(side, u) != Sign::Zero
    &&& side_by(side, v) != Sign::Zero
    &&& side_by(side, u) != side_by(side, v)
    &&& s1 != Sign::Zero
    &&& s1 == orient_sign(o, u, v, f[1], f[2])
    &&& s1 == orient_sign(o, u, v, f[2], f[0])
}

/// The lesser of two vertices.
pub open spec fn lo(a: usize, b: usize) -> usize {
    if a <= b { a } else { b }
}

/// The greater of two vertices.
pub open spec fn hi(a: usize, b: usize) -> usize {
    if a <= b { b } else { a }
}

/// Some edge of tet `t`, taken from its lesser to its greater end, pierces
/// the facet `f`.
pub open spec fn tet_pierces<Q: Fn(usize) -> Sign, F: Fn(usize, usize, usize, usize) -> Sign>(
    side: Q,
    o: F,
    f: [usize; 3],
    t: [usize; 4],
) -> bool {
    exists|i: int, j: int| 0 <= i < j < 4 && #[trigger] edge_pierces(side, o, f, lo(t[i], t[j]), hi(t[i], t[j]))
}

/// Slot `s` holds a live real tet that pierces the facet.
pub open spec fn slot_pierces<Q: Fn(usize) -> Sign, F: Fn(usize, usize, usize, usize) -> Sign>(
    tets: Seq<[u32; 4]>,
    alive: Seq<bool>,
    side: Q,
    o: F,
    f: [usize; 3],
    s: u32,
) -> bool {
    match slab_tet_at(tets, alive, s) {
        Some(t) => tet_pierces(side, o, f, t),
        None => false,
    }
}

/// [`slot_pierces`] as a filter.
pub open spec fn pierce_test<Q: Fn(usize) -> Sign, F: Fn(usize, usize, usize, usize) -> Sign>(
    tets: Seq<[u32; 4]>,
    alive: Seq<bool>,
    side: Q,
    o: F,
    f: [usize; 3],
) -> spec_fn(u32) -> bool {
    |s: u32| slot_pierces(tets, alive, side, o, f, s)
}

fn side_at<Q: Fn(usize) -> Sign>(q: &Q, v: usize) -> (r: Sign)
    requires
        is_side_oracle(*q),
    ensures
        r == side_by(*q, v),
{
    q(v)
}

fn edge_pierces_facet<Q: Fn(usize) -> Sign, F: Fn(usize, usize, usize, usize) -> Sign>(
    side: &Q,
    o: &F,
    f: [usize; 3],
    u: usize,
    v: usize,
) -> (r: bool)
    requires
        is_side_oracle(*side),
        is_orient_oracle(*o),
    ensures
        r == edge_pierces(*side, *o, f, u, v),
{
    let su = side_at(side, u);
    let sv = side_at(side, v);
    if su == Sign::Zero || sv == Sign::Zero || su == sv {
        return false;
    }
    let s1 = orient_of(o, u, v, f[0], f[1]);
    let s2 = orient_of(o, u, v, f[1], f[2]);
    let s3 = orient_of(o, u, v, f[2], f[0]);
    s1 != Sign::Zero && s1 == s2 && s2 == s3
}

/// Whether some edge of tet `t` pierces the facet `f` (edges taken from
/// their lesser to their greater end).
pub fn tet_pierces_facet<Q: Fn(usize) -> Sign, F: Fn(usize, usize, usize, usize) -> Sign>(
    side: &Q,
    o: &F,
    f: [usize; 3],
    t: [usize; 4],
) -> (r: bool)
    requires
        is_side_oracle(*side),
        is_orient_oracle(*o),
    ensures
        r == tet_pierces(*side, *o, f, t),
{
    let mut i: usize = 0;
    while i < 4
        invariant
            i <= 4,
            is_side_oracle(*side),
            is_orient_oracle(*o),
            forall|a: int, b: int| 0 <= a < i && a < b < 4 ==> !edge_pierces(*side, *o, f, lo(t[a], t[b]), hi(t[a], t[b])),
        decreases 4 - i,
    {
        let mut j: usize = i + 1;
        while j < 4
            invariant
                i < 4,
                i < j <= 4,
                is_side_oracle(*side),
                is_orient_oracle(*o),
                forall|a: int, b: int|
                    0 <= a < i && a < b < 4 ==> !edge_pierces(*side, *o, f, lo(t[a], t[b]), hi(t[a], t[b])),
                forall|b: int| i < b < j ==> !edge_pierces(*side, *o, f, lo(t[i as int], t[b]), hi(t[i as int], t[b])),
            decreases 4 - j,
        {
            let (u, v) = if t[i] <= t[j] {
                (t[i], t[j])
            } else {
                (t[j], t[i])
            };
            if edge_pierces_facet(side, o, f, u, v) {
                proof {
                    assert(edge_pierces(*side, *o, f, lo(t[i as int], t[j as int]), hi(t[i as int], t[j as int])));
                }
                return true;
            }
            j += 1;
        }
        i += 1;
    }
    false
}

/// The candidate slots that hold a live real tet piercing the facet `f`,
/// in candidate order.
pub fn piercing_slots<Q: Fn(usize) -> Sign, F: Fn(usize, usize, usize, usize) -> Sign>(
    slab: &TetSlab,
    candidates: &[u32],
    side: &Q,
    o: &F,
    f: [usize; 3],
) -> (r: Vec<u32>)
    requires
        slab.wf(),
        is_side_oracle(*side),
        is_orient_oracle(*o),
    ensures
        r@ == candidates@.filter(pierce_test(slab.tets@, slab.alive@, *side, *o, f)),
{
    let ghost test = pierce_test(slab.tets@, slab.alive@, *side, *o, f);
    let mut r: Vec<u32> = Vec::new();
    let mut k: usize = 0;
    proof {
        assert(candidates@.subrange(0, 0) =~= Seq::<u32>::empty());
        assert(Seq::<u32>::empty().filter(test) =~= Seq::<u32>::empty()) by {
            reveal(Seq::filter);
        }
    }
    while k < candidates.len()
        invariant
            k <= candidates@.len(),
            slab.wf(),
            is_side_oracle(*side),
            is_orient_oracle(*o),
            test == pierce_test(slab.tets@, slab.alive@, *side, *o, f),
            r@ == candidates@.subrange(0, k as int).filter(test),
        decreases candidates@.len() - k,
    {
        let s = candidates[k];
        let hit = match slab.tet_at(s) {
            Some(t) => tet_pierces_facet(side, o, f, t),
            None => false,
        };
        proof {
            candidates@.subrange(0, k as int).lemma_filter_push(s, test);
            assert(candidates@.subrange(0, k as int).push(s) =~= candidates@.subrange(0, k + 1));
            assert(hit == test(s));
        }
        if hit {
            r.push(s);
        }
        k += 1;
    }
    proof {
        assert(candidates@.subrange(0, candidates@.len() as int) =~= candidates@);
    }
    r
}

/// Distinct slots below `n` number at most `n`.
proof fn lemma_distinct_below(s: Seq<u32>, n: int)
    requires
        0 <= n,
        s.no_duplicates(),
        forall|k: int| 0 <= k < s.len() ==> (#[trigger] s[k]) < n,
    ensures
        s.len() <= n,
{
    let m = s.map_values(|x: u32| x as int);
    assert(m.no_duplicates()) by {
        assert forall|a: int, b: int| 0 <= a < m.len() && 0 <= b < m.len() && a != b implies m[a] != m[b] by {
            assert(s[a] != s[b]);
        }
    }
    m.unique_seq_to_set();
    vstd::set_lib::lemma_int_range(0, n);
    assert(m.to_set().subset_of(vstd::set_lib::set_int_range(0, n))) by {
        assert forall|x: int| m.to_set().contains(x) implies vstd::set_lib::set_int_range(0, n).contains(x) by {
            let k = choose|k: int| 0 <= k < m.len() && m[k] == x;
            assert(s[k] < n);
        }
    }
    vstd::set_lib::lemma_len_subset(m.to_set(), vstd::set_lib::set_int_range(0, n));
}

/// Slot `t` is a neighbor of slot `s` across one of its faces.
pub open spec fn adjacent(neighbors: Seq<[u32; 4]>, s: u32, t: u32) -> bool {
    exists|i: int| 0 <= i < 4 && #[trigger] slab_neighbor_at(neighbors, s, i) == Some(t)
}

/// `comp` is grown from its first entry by face adjacency: every later
/// entry is adjacent to an earlier one.
pub open spec fn grown_from_first(neighbors: Seq<[u32; 4]>, comp: Seq<u32>) -> bool {
    forall|k: int| 0 < k < comp.len() ==> exists|h: int| 0 <= h < k && adjacent(neighbors, comp[h], #[trigger] comp[k])
}

/// No slot of `members` adjacent to an entry of `comp` is missing from
/// `comp`.
pub open spec fn closed_within(neighbors: Seq<[u32; 4]>, comp: Seq<u32>, members: Seq<u32>) -> bool {
    forall|k: int, i: int|
        0 <= k < comp.len() && 0 <= i < 4 ==> match #[trigger] slab_neighbor_at(neighbors, comp[k], i) {
            Some(nb) => members.contains(nb) ==> comp.contains(nb),
            None => true,
        }
}

/// The face-connected component, within the piercing slots, of the least
/// piercing slot: the cavity re-tetrahedralized next. Starts at that slot
/// and is grown breadth-first; empty when nothing pierces.
pub fn piercing_component(slab: &TetSlab, piercing: &[u32]) -> (comp: Vec<u32>)
    requires
        slab.wf(),
        forall|k: int| 0 <= k < piercing@.len() ==> (#[trigger] piercing@[k]) < slab.tets@.len(),
    ensures
        piercing@.len() == 0 ==> comp@.len() == 0,
        piercing@.len() > 0 ==> {
            &&& comp@.len() > 0
            &&& piercing@.contains(comp@[0])
            &&& forall|k: int| 0 <= k < piercing@.len() ==> comp@[0] <= #[trigger] piercing@[k]
        },
        comp@.no_duplicates(),
        forall|k: int| 0 <= k < comp@.len() ==> piercing@.contains(#[trigger] comp@[k]),
        closed_within(slab.neighbors@, comp@, piercing@),
        grown_from_first(slab.neighbors@, comp@),
{
    let n = piercing.len();
    if n == 0 {
        return Vec::new();
    }
    let mut start = piercing[0];
    let mut pset: FxHashSet<u32> = fx_set_empty();
    let mut k: usize = 0;
    while k < n
        invariant
            n == piercing@.len(),
            n > 0,
            k <= n,
            piercing@.contains(start),
            forall|q: int| 0 <= q < k ==> start <= #[trigger] piercing@[q],
            forall|x: u32| pset@.contains(x) <==> exists|q: int| 0 <= q < k && piercing@[q] == x,
        decreases n - k,
    {
        let x = piercing[k];
        if x < start {
            start = x;
        }
        fx_set_insert(&mut pset, x);
        proof {
            assert forall|y: u32| pset@.contains(y) implies exists|q: int| 0 <= q < k + 1 && piercing@[q] == y by {
                if y != x {
                    let q = choose|q: int| 0 <= q < k && piercing@[q] == y;
                    assert(0 <= q < k + 1 && piercing@[q] == y);
                } else {
                    assert(piercing@[k as int] == y);
                }
            }
            assert forall|y: u32| (exists|q: int| 0 <= q < k + 1 && piercing@[q] == y) implies pset@.contains(y) by {
                let q = choose|q: int| 0 <= q < k + 1 && piercing@[q] == y;
                if q < k {
                    assert(exists|q2: int| 0 <= q2 < k && piercing@[q2] == y);
                }
            }
        }
        k += 1;
    }
    proof {
        assert forall|x: u32| pset@.contains(x) <==> piercing@.contains(x) by {
            if pset@.contains(x) {
                let q = choose|q: int| 0 <= q < n && piercing@[q] == x;
                assert(piercing@.contains(x));
            }
            if piercing@.contains(x) {
                let q = choose|q: int| 0 <= q < n && piercing@[q] == x;
                assert(exists|q2: int| 0 <= q2 < n && piercing@[q2] == x);
            }
        }
    }
    let mut comp: Vec<u32> = Vec::new();
    comp.push(start);
    let mut in_comp: FxHashSet<u32> = fx_set_empty();
    fx_set_insert(&mut in_comp, start);
    proof {
        assert(comp@.to_set() =~= in_comp@) by {
            assert forall|x: u32| comp@.to_set().contains(x) <==> in_comp@.contains(x) by {
                if comp@.contains(x) {
                    assert(comp@[0] == x);
                }
                if in_comp@.contains(x) {
                    assert(comp@[0] == x);
                }
            }
        }
    }
    let mut h: usize = 0;
    while h < comp.len()
        invariant
            slab.wf(),
            n == piercing@.len(),
            n > 0,
            forall|q: int| 0 <= q < n ==> (#[trigger] piercing@[q]) < slab.tets@.len(),
            forall|x: u32| pset@.contains(x) <==> piercing@.contains(x),
            comp@.len() > 0,
            comp@[0] == start,
            piercing@.contains(start),
            forall|q: int| 0 <= q < n ==> start <= #[trigger] piercing@[q],
            h <= comp@.len(),
            comp@.no_duplicates(),
            forall|q: int| 0 <= q < comp@.len() ==> piercing@.contains(#[trigger] comp@[q]),
            forall|x: u32| #[trigger] in_comp@.contains(x) <==> comp@.contains(x),
            forall|q: int, i: int|
                0 <= q < h && 0 <= i < 4 ==> match #[trigger] slab_neighbor_at(slab.neighbors@, comp@[q], i) {
                    Some(nb) => piercing@.contains(nb) ==> comp@.contains(nb),
                    None => true,
                },
            grown_from_first(slab.neighbors@, comp@),
        decreases slab.tets@.len() - h,
    {
        proof {
            lemma_distinct_below(comp@, slab.tets@.len() as int);
        }
        let s = comp[h];
        let ghost c0 = comp@;
        let mut i: usize = 0;
        while i < 4
            invariant
                slab.wf(),
                n == piercing@.len(),
                forall|q: int| 0 <= q < n ==> (#[trigger] piercing@[q]) < slab.tets@.len(),
                forall|x: u32| pset@.contains(x) <==> piercing@.contains(x),
                h < comp@.len(),
                s == comp@[h as int],
                s < slab.tets@.len(),
                i <= 4,
                comp@.len() >= c0.len(),
                comp@.subrange(0, c0.len() as int) == c0,
                comp@[0] == start,
                comp@.no_duplicates(),
                forall|q: int| 0 <= q < comp@.len() ==> piercing@.contains(#[trigger] comp@[q]),
                forall|x: u32| #[trigger] in_comp@.contains(x) <==> comp@.contains(x),
                forall|q: int, j: int|
                    0 <= q < h && 0 <= j < 4 ==> match #[trigger] slab_neighbor_at(slab.neighbors@, comp@[q], j) {
                        Some(nb) => piercing@.contains(nb) ==> comp@.contains(nb),
                        None => true,
                    },
                forall|j: int|
                    0 <= j < i ==> match #[trigger] slab_neighbor_at(slab.neighbors@, s, j) {
                        Some(nb) => piercing@.contains(nb) ==> comp@.contains(nb),
                        None => true,
                    },
                grown_from_first(slab.neighbors@, comp@),
            decreases 4 - i,
        {
            match slab.neighbor_at(s, i) {
                Some(nb) => {
                    if fx_set_contains(&pset, &nb) && !fx_set_contains(&in_comp, &nb) {
                        let ghost before = comp@;
                        fx_set_insert(&mut in_comp, nb);
                        comp.push(nb);
                        proof {
                            assert(comp@ == before.push(nb));
                            assert forall|x: u32| #[trigger] in_comp@.contains(x) <==> comp@.contains(x) by {
                                if before.contains(x) {
                                    let q = choose|q: int| 0 <= q < before.len() && before[q] == x;
                                    assert(comp@[q] == x);
                                }
                                if comp@.contains(x) && x != nb {
                                    let q = choose|q: int| 0 <= q < comp@.len() && comp@[q] == x;
                                    assert(q < before.len());
                                    assert(before.contains(x));
                                }
                                if x == nb {
                                    assert(comp@[before.len() as int] == nb);
                                }
                            }
                            assert(!before.contains(nb));
                            assert forall|q: int| 0 <= q < comp@.len() implies piercing@.contains(#[trigger] comp@[q]) by {
                                if q < before.len() {
                                    assert(comp@[q] == before[q]);
                                }
                            }
                            assert forall|q: int, j: int|
                                0 <= q < h && 0 <= j < 4 implies match #[trigger] slab_neighbor_at(
                                slab.neighbors@,
                                comp@[q],
                                j,
                            ) {
                                Some(nb2) => piercing@.contains(nb2) ==> comp@.contains(nb2),
                                None => true,
                            } by {
                                assert(comp@[q] == before[q]);
                                match slab_neighbor_at(slab.neighbors@, comp@[q], j) {
                                    Some(nb2) => {
                                        if piercing@.contains(nb2) {
                                            let w = choose|w: int| 0 <= w < before.len() && before[w] == nb2;
                                            assert(comp@[w] == nb2);
                                        }
                                    },
                                    None => {},
                                }
                            }
                            assert forall|j: int| 0 <= j < i + 1 implies match #[trigger] slab_neighbor_at(
                                slab.neighbors@,
                                s,
                                j,
                            ) {
                                Some(nb2) => piercing@.contains(nb2) ==> comp@.contains(nb2),
                                None => true,
                            } by {
                                match slab_neighbor_at(slab.neighbors@, s, j) {
                                    Some(nb2) => {
                                        if piercing@.contains(nb2) {
                                            if j < i {
                                                let w = choose|w: int| 0 <= w < before.len() && before[w] == nb2;
                                                assert(comp@[w] == nb2);
                                            } else {
                                                assert(comp@[before.len() as int] == nb2);
                                            }
                                        }
                                    },
                                    None => {},
                                }
                            }
                            assert forall|k2: int| 0 < k2 < comp@.len() implies exists|h2: int|
                                0 <= h2 < k2 && adjacent(slab.neighbors@, comp@[h2], #[trigger] comp@[k2]) by {
                                if k2 < before.len() {
                                    let h2 = choose|h2: int| 0 <= h2 < k2 && adjacent(slab.neighbors@, before[h2], before[k2]);
                                    assert(comp@[h2] == before[h2]);
                                    assert(comp@[k2] == before[k2]);
                                } else {
                                    assert(slab_neighbor_at(slab.neighbors@, s, i as int) == Some(nb));
                                    assert(adjacent(slab.neighbors@, comp@[h as int], comp@[k2]));
                                }
                            }
                            assert(comp@.subrange(0, c0.len() as int) =~= before.subrange(0, c0.len() as int));
                        }
                    } else {
                        proof {
                            if piercing@.contains(nb) {
                                assert(pset@.contains(nb));
                                assert(in_comp@.contains(nb));
                            }
                        }
                    }
                },
                None => {},
            }
            i += 1;
        }
        h += 1;
    }
    proof {
        assert forall|q: int, i: int|
            0 <= q < comp@.len() && 0 <= i < 4 implies match #[trigger] slab_neighbor_at(slab.neighbors@, comp@[q], i) {
            Some(nb) => piercing@.contains(nb) ==> comp@.contains(nb),
            None => true,
        } by {
            assert(q < h);
        }
    }
    comp
}

/// What the overlap oracle `b` answers for tet `t`: whether its bounding
/// box meets the facet's (padded) bounding box.
pub open spec fn overlap_says<B: Fn(&[usize; 4]) -> bool>(b: B, t: [usize; 4]) -> bool {
    choose|r: bool| call_ensures(b, (&t,), r)
}

/// `b` answers every tet, and always the same way.
pub open spec fn is_overlap_oracle<B: Fn(&[usize; 4]) -> bool>(b: B) -> bool {
    &&& forall|t: [usize; 4]| #[trigger] call_requires(b, (&t,))
    &&& forall|t: [usize; 4], r: bool, q: bool| #[trigger] call_ensures(b, (&t,), r) && #[trigger] call_ensures(b, (&t,), q) ==> r == q
}

fn overlap_of<B: Fn(&[usize; 4]) -> bool>(b: &B, t: [usize; 4]) -> (r: bool)
    requires
        is_overlap_oracle(*b),
    ensures
        r == overlap_says(*b, t),
{
    b(&t)
}

/// Slot `s` holds a live real tet whose box meets the facet's.
pub open spec fn slot_overlaps<B: Fn(&[usize; 4]) -> bool>(tets: Seq<[u32; 4]>, alive: Seq<bool>, b: B, s: u32) -> bool {
    match slab_tet_at(tets, alive, s) {
        Some(t) => overlap_says(b, t),
        None => false,
    }
}

/// Every neighbor of an entry among the first `upto` that holds a live real
/// tet meeting the facet's box is listed.
pub open spec fn sweep_closed_upto<B: Fn(&[usize; 4]) -> bool>(
    tets: Seq<[u32; 4]>,
    alive: Seq<bool>,
    neighbors: Seq<[u32; 4]>,
    b: B,
    q: Seq<u32>,
    upto: int,
) -> bool {
    forall|k: int, i: int|
        0 <= k < upto && 0 <= i < 4 ==> match #[trigger] slab_neighbor_at(neighbors, q[k], i) {
            Some(nb) => slot_overlaps(tets, alive, b, nb) ==> q.contains(nb),
            None => true,
        }
}

/// Every entry is a seed, or a tet meeting the facet's box that neighbors
/// an earlier entry.
pub open spec fn swept_from_seeds<B: Fn(&[usize; 4]) -> bool>(
    tets: Seq<[u32; 4]>,
    alive: Seq<bool>,
    neighbors: Seq<[u32; 4]>,
    b: B,
    seeds: Seq<u32>,
    q: Seq<u32>,
) -> bool {
    forall|k: int|
        0 <= k < q.len() ==> seeds.contains(#[trigger] q[k]) || (slot_overlaps(tets, alive, b, q[k]) && exists|h: int|
            0 <= h < k && adjacent(neighbors, q[h], q[k]))
}

/// The candidate tets of a facet's sweep: the live real seed slots (the
/// stars of the facet's boundary vertices), then, breadth-first, every live
/// real neighbor whose box meets the facet's box. Each slot once.
pub fn candidate_sweep<B: Fn(&[usize; 4]) -> bool>(slab: &TetSlab, seeds: &[u32], overlaps: &B) -> (q: Vec<u32>)
    requires
        slab.wf(),
        is_overlap_oracle(*overlaps),
    ensures
        q@.no_duplicates(),
        forall|k: int| 0 <= k < q@.len() ==> slab_tet_at(slab.tets@, slab.alive@, #[trigger] q@[k]) is Some,
        forall|k: int|
            0 <= k < seeds@.len() && slab_tet_at(slab.tets@, slab.alive@, #[trigger] seeds@[k]) is Some ==> q@.contains(
                seeds@[k],
            ),
        sweep_closed_upto(slab.tets@, slab.alive@, slab.neighbors@, *overlaps, q@, q@.len() as int),
        swept_from_seeds(slab.tets@, slab.alive@, slab.neighbors@, *overlaps, seeds@, q@),
{
    let ghost tt = slab.tets@;
    let ghost al = slab.alive@;
    let ghost nbs = slab.neighbors@;
    let mut seen: FxHashSet<u32> = fx_set_empty();
    let mut queue: Vec<u32> = Vec::new();
    let mut k: usize = 0;
    while k < seeds.len()
        invariant
            k <= seeds@.len(),
            slab.wf(),
            tt == slab.tets@,
            al == slab.alive@,
            queue@.no_duplicates(),
            forall|x: u32| #[trigger] seen@.contains(x) <==> queue@.contains(x),
            forall|j: int| 0 <= j < queue@.len() ==> slab_tet_at(tt, al, #[trigger] queue@[j]) is Some,
            forall|j: int| 0 <= j < queue@.len() ==> seeds@.contains(#[trigger] queue@[j]),
            forall|j: int| 0 <= j < k && slab_tet_at(tt, al, #[trigger] seeds@[j]) is Some ==> queue@.contains(seeds@[j]),
        decreases seeds@.len() - k,
    {
        let s = seeds[k];
        if slab.tet_at(s).is_some() && !fx_set_contains(&seen, &s) {
            let ghost before = queue@;
            fx_set_insert(&mut seen, s);
            queue.push(s);
            proof {
                assert(!before.contains(s));
                assert forall|x: u32| #[trigger] seen@.contains(x) <==> queue@.contains(x) by {
                    if before.contains(x) {
                        let w = choose|w: int| 0 <= w < before.len() && before[w] == x;
                        assert(queue@[w] == x);
                    }
                    if queue@.contains(x) && x != s {
                        let w = choose|w: int| 0 <= w < queue@.len() && queue@[w] == x;
                        assert(before.contains(x));
                    }
                    if x == s {
                        assert(queue@[before.len() as int] == s);
                    }
                }
                assert forall|j: int| 0 <= j < queue@.len() implies seeds@.contains(#[trigger] queue@[j]) by {
                    if j == before.len() {
                        assert(seeds@[k as int] == s);
                    } else {
                        assert(queue@[j] == before[j]);
                    }
                }
                assert forall|j: int| 0 <= j < k + 1 && slab_tet_at(tt, al, #[trigger] seeds@[j]) is Some implies queue@.contains(
                    seeds@[j],
                ) by {
                    if j < k {
                        let w = choose|w: int| 0 <= w < before.len() && before[w] == seeds@[j];
                        assert(queue@[w] == seeds@[j]);
                    } else {
                        assert(queue@[before.len() as int] == s);
                    }
                }
            }
        } else {
            proof {
                if slab_tet_at(tt, al, s) is Some {
                    assert(seen@.contains(s));
                }
            }
        }
        k += 1;
    }
    let mut head: usize = 0;
    while head < queue.len()
        invariant
            slab.wf(),
            tt == slab.tets@,
            al == slab.alive@,
            nbs == slab.neighbors@,
            is_overlap_oracle(*overlaps),
            head <= queue@.len(),
            queue@.no_duplicates(),
            forall|x: u32| #[trigger] seen@.contains(x) <==> queue@.contains(x),
            forall|j: int| 0 <= j < queue@.len() ==> slab_tet_at(tt, al, #[trigger] queue@[j]) is Some,
            forall|j: int| 0 <= j < seeds@.len() && slab_tet_at(tt, al, #[trigger] seeds@[j]) is Some ==> queue@.contains(seeds@[j]),
            sweep_closed_upto(tt, al, nbs, *overlaps, queue@, head as int),
            swept_from_seeds(tt, al, nbs, *overlaps, seeds@, queue@),
        decreases tt.len() - head,
    {
        proof {
            assert forall|j: int| 0 <= j < queue@.len() implies (#[trigger] queue@[j]) < tt.len() by {
                assert(slab_tet_at(tt, al, queue@[j]) is Some);
            }
            lemma_distinct_below(queue@, tt.len() as int);
        }
        let s = queue[head];
        proof {
            assert(slab_tet_at(tt, al, queue@[head as int]) is Some);
        }
        let ghost q0 = queue@;
        let mut i: usize = 0;
        while i < 4
            invariant
                slab.wf(),
                tt == slab.tets@,
                al == slab.alive@,
                nbs == slab.neighbors@,
                is_overlap_oracle(*overlaps),
                head < queue@.len(),
                s == queue@[head as int],
                s < tt.len(),
                i <= 4,
                queue@.len() >= q0.len(),
                queue@.subrange(0, q0.len() as int) == q0,
                queue@.no_duplicates(),
                forall|x: u32| #[trigger] seen@.contains(x) <==> queue@.contains(x),
                forall|j: int| 0 <= j < queue@.len() ==> slab_tet_at(tt, al, #[trigger] queue@[j]) is Some,
                forall|j: int|
                    0 <= j < seeds@.len() && slab_tet_at(tt, al, #[trigger] seeds@[j]) is Some ==> queue@.contains(seeds@[j]),
                sweep_closed_upto(tt, al, nbs, *overlaps, queue@, head as int),
                forall|j: int|
                    0 <= j < i ==> match #[trigger] slab_neighbor_at(nbs, s, j) {
                        Some(nb) => slot_overlaps(tt, al, *overlaps, nb) ==> queue@.contains(nb),
                        None => true,
                    },
                swept_from_seeds(tt, al, nbs, *overlaps, seeds@, queue@),
            decreases 4 - i,
        {
            match slab.neighbor_at(s, i) {
                Some(nb) => {
                    let hit = if fx_set_contains(&seen, &nb) {
                        false
                    } else {
                        match slab.tet_at(nb) {
                            Some(t) => overlap_of(overlaps, t),
                            None => false,
                        }
                    };
                    if hit {
                        let ghost before = queue@;
                        fx_set_insert(&mut seen, nb);
                        queue.push(nb);
                        proof {
                            assert(!before.contains(nb));
                            assert forall|x: u32| #[trigger] seen@.contains(x) <==> queue@.contains(x) by {
                                if before.contains(x) {
                                    let w = choose|w: int| 0 <= w < before.len() && before[w] == x;
                                    assert(queue@[w] == x);
                                }
                                if queue@.contains(x) && x != nb {
                                    let w = choose|w: int| 0 <= w < queue@.len() && queue@[w] == x;
                                    assert(before.contains(x));
                                }
                                if x == nb {
                                    assert(queue@[before.len() as int] == nb);
                                }
                            }
                            assert forall|j: int| 0 <= j < queue@.len() implies slab_tet_at(tt, al, #[trigger] queue@[j]) is Some by {
                                if j < before.len() {
                                    assert(queue@[j] == before[j]);
                                }
                            }
                            assert forall|j: int|
                                0 <= j < seeds@.len() && slab_tet_at(tt, al, #[trigger] seeds@[j]) is Some implies queue@.contains(
                                seeds@[j],
                            ) by {
                                let w = choose|w: int| 0 <= w < before.len() && before[w] == seeds@[j];
                                assert(queue@[w] == seeds@[j]);
                            }
                            assert forall|k2: int, j: int| 0 <= k2 < head && 0 <= j < 4 implies match #[trigger] slab_neighbor_at(
                                nbs,
                                queue@[k2],
                                j,
                            ) {
                                Some(nb2) => slot_overlaps(tt, al, *overlaps, nb2) ==> queue@.contains(nb2),
                                None => true,
                            } by {
                                assert(queue@[k2] == before[k2]);
                                match slab_neighbor_at(nbs, queue@[k2], j) {
                                    Some(nb2) => {
                                        if slot_overlaps(tt, al, *overlaps, nb2) {
                                            let w = choose|w: int| 0 <= w < before.len() && before[w] == nb2;
                                            assert(queue@[w] == nb2);
                                        }
                                    },
                                    None => {},
                                }
                            }
                            assert forall|j: int| 0 <= j < i + 1 implies match #[trigger] slab_neighbor_at(nbs, s, j) {
                                Some(nb2) => slot_overlaps(tt, al, *overlaps, nb2) ==> queue@.contains(nb2),
                                None => true,
                            } by {
                                match slab_neighbor_at(nbs, s, j) {
                                    Some(nb2) => {
                                        if slot_overlaps(tt, al, *overlaps, nb2) {
                                            if j < i {
                                                let w = choose|w: int| 0 <= w < before.len() && before[w] == nb2;
                                                assert(queue@[w] == nb2);
                                            } else {
                                                assert(queue@[before.len() as int] == nb2);
                                            }
                                        }
                                    },
                                    None => {},
                                }
                            }
                            assert forall|k2: int| 0 <= k2 < queue@.len() implies seeds@.contains(#[trigger] queue@[k2]) || (
                            slot_overlaps(tt, al, *overlaps, queue@[k2]) && exists|h2: int|
                                0 <= h2 < k2 && adjacent(nbs, queue@[h2], queue@[k2])) by {
                                if k2 < before.len() {
                                    assert(queue@[k2] == before[k2]);
                                    if !seeds@.contains(before[k2]) {
                                        let h2 = choose|h2: int| 0 <= h2 < k2 && adjacent(nbs, before[h2], before[k2]);
                                        assert(queue@[h2] == before[h2]);
                                    }
                                } else {
                                    assert(slab_neighbor_at(nbs, s, i as int) == Some(nb));
                                    assert(adjacent(nbs, queue@[head as int], queue@[k2]));
                                }
                            }
                            assert(queue@.subrange(0, q0.len() as int) =~= before.subrange(0, q0.len() as int));
                        }
                    } else {
                        proof {
                            if slot_overlaps(tt, al, *overlaps, nb) {
                                assert(seen@.contains(nb));
                            }
                        }
                    }
                },
                None => {},
            }
            i += 1;
        }
        proof {
            assert forall|k2: int, j: int| 0 <= k2 < head + 1 && 0 <= j < 4 implies match #[trigger] slab_neighbor_at(
                nbs,
                queue@[k2],
                j,
            ) {
                Some(nb2) => slot_overlaps(tt, al, *overlaps, nb2) ==> queue@.contains(nb2),
                None => true,
            } by {
                if k2 == head {
                    assert(queue@[k2] == s);
                }
            }
        }
        head += 1;
    }
    queue
}

/// The boundary segments of `f` are segments of `chains`.
pub open spec fn facet_in_chains(chains: SegmentChains, f: FacetRef) -> bool {
    forall|k: int| 0 <= k < 3 ==> (#[trigger] f.edges[k]) < chains.chain_seqs().len()
}

/// Every piece of every boundary chain of `f` is an edge of the
/// triangulation.
pub open spec fn boundary_intact_by<E: Fn(usize, usize) -> bool>(chains: SegmentChains, f: FacetRef, e: E) -> bool {
    forall|k: int, j: int|
        0 <= k < 3 && 0 <= j && j + 1 < chains.chain_seqs()[f.edges[k] as int].len() ==> #[trigger] edge_answer(
            e,
            chains.chain_seqs()[f.edges[k] as int][j],
            chains.chain_seqs()[f.edges[k] as int][j + 1],
        )
}

/// Whether the facet's own boundary chains are all edges of the
/// triangulation (the precondition of its piercing sweep).
pub fn boundary_intact<E: Fn(usize, usize) -> bool>(chains: &SegmentChains, f: &FacetRef, e: &E) -> (r: bool)
    requires
        chains.wf(),
        facet_in_chains(*chains, *f),
        is_edge_oracle(*e),
    ensures
        r == boundary_intact_by(*chains, *f, *e),
{
    let mut k: usize = 0;
    while k < 3
        invariant
            k <= 3,
            chains.wf(),
            facet_in_chains(*chains, *f),
            is_edge_oracle(*e),
            forall|k2: int, j: int|
                0 <= k2 < k && 0 <= j && j + 1 < chains.chain_seqs()[f.edges[k2] as int].len() ==> #[trigger] edge_answer(
                    *e,
                    chains.chain_seqs()[f.edges[k2] as int][j],
                    chains.chain_seqs()[f.edges[k2] as int][j + 1],
                ),
        decreases 3 - k,
    {
        let c = chains.chain(f.edges[k]);
        let mut j: usize = 0;
        while j < c.len() && j + 1 < c.len()
            invariant
                k < 3,
                is_edge_oracle(*e),
                c@ == chains.chain_seqs()[f.edges[k as int] as int],
                c@.len() >= 2,
                j + 1 <= c@.len(),
                forall|j2: int| 0 <= j2 < j ==> #[trigger] edge_answer(*e, c@[j2], c@[j2 + 1]),
            decreases c@.len() - j,
        {
            if !edge_of(e, c[j], c[j + 1]) {
                return false;
            }
            j += 1;
        }
        k += 1;
    }
    true
}

fn edge_of<E: Fn(usize, usize) -> bool>(e: &E, a: usize, b: usize) -> (r: bool)
    requires
        is_edge_oracle(*e),
    ensures
        r == edge_answer(*e, a, b),
{
    e(a, b)
}

/// Whether none of the facet's boundary segments has been split yet.
pub fn facet_unsplit(chains: &SegmentChains, f: &FacetRef) -> (r: bool)
    requires
        chains.wf(),
        facet_in_chains(*chains, *f),
    ensures
        r == forall|k: int| 0 <= k < 3 ==> #[trigger] chains.chain_seqs()[f.edges[k] as int].len() == 2,
{
    let a = chains.chain(f.edges[0]).len() == 2;
    let b = chains.chain(f.edges[1]).len() == 2;
    let c = chains.chain(f.edges[2]).len() == 2;
    proof {
        if !(a && b && c) {
            if !a {
                assert(chains.chain_seqs()[f.edges[0] as int].len() != 2);
            } else if !b {
                assert(chains.chain_seqs()[f.edges[1] as int].len() != 2);
            } else {
                assert(chains.chain_seqs()[f.edges[2] as int].len() != 2);
            }
        }
    }
    a && b && c
}

/// The seed vertices of the facet's sweep: its corners, then each boundary
/// chain in edge order.
pub fn facet_seeds(chains: &SegmentChains, f: &FacetRef) -> (r: Vec<usize>)
    requires
        chains.wf(),
        facet_in_chains(*chains, *f),
    ensures
        r@ == seq![f.corners[0], f.corners[1], f.corners[2]] + chains.chain_seqs()[f.edges[0] as int]
            + chains.chain_seqs()[f.edges[1] as int] + chains.chain_seqs()[f.edges[2] as int],
{
    let mut r: Vec<usize> = Vec::new();
    r.push(f.corners[0]);
    r.push(f.corners[1]);
    r.push(f.corners[2]);
    let ghost mut acc = seq![f.corners[0], f.corners[1], f.corners[2]];
    proof {
        assert(r@ =~= acc);
    }
    let mut k: usize = 0;
    while k < 3
        invariant
            k <= 3,
            chains.wf(),
            facet_in_chains(*chains, *f),
            r@ == acc,
            acc == (if k == 0 {
                seq![f.corners[0], f.corners[1], f.corners[2]]
            } else if k == 1 {
                seq![f.corners[0], f.corners[1], f.corners[2]] + chains.chain_seqs()[f.edges[0] as int]
            } else if k == 2 {
                seq![f.corners[0], f.corners[1], f.corners[2]] + chains.chain_seqs()[f.edges[0] as int]
                    + chains.chain_seqs()[f.edges[1] as int]
            } else {
                seq![f.corners[0], f.corners[1], f.corners[2]] + chains.chain_seqs()[f.edges[0] as int]
                    + chains.chain_seqs()[f.edges[1] as int] + chains.chain_seqs()[f.edges[2] as int]
            }),
        decreases 3 - k,
    {
        let c = chains.chain(f.edges[k]);
        let mut j: usize = 0;
        let ghost base = r@;
        while j < c.len()
            invariant
                j <= c@.len(),
                r@ == base + c@.subrange(0, j as int),
            decreases c@.len() - j,
        {
            r.push(c[j]);
            j += 1;
            proof {
                assert(r@ =~= base + c@.subrange(0, j as int));
            }
        }
        proof {
            assert(c@.subrange(0, c@.len() as int) =~= c@);
            acc = acc + c@;
        }
        k += 1;
    }
    r
}

/// Slot `s` holds a live real tet with a vertex among `seeds`: a slot of
/// the star of a seed vertex.
pub open spec fn in_star(tets: Seq<[u32; 4]>, alive: Seq<bool>, seeds: Seq<usize>, s: u32) -> bool {
    match slab_tet_at(tets, alive, s) {
        Some(t) => exists|k: int| 0 <= k < 4 && #[trigger] seeds.contains(t[k]),
        None => false,
    }
}

/// The star slots of `seeds` among the first `n` slots, in slot order.
pub open spec fn star_slots_upto(tets: Seq<[u32; 4]>, alive: Seq<bool>, seeds: Seq<usize>, n: int) -> Seq<u32>
    decreases n,
{
    if n <= 0 {
        Seq::empty()
    } else if in_star(tets, alive, seeds, (n - 1) as u32) {
        star_slots_upto(tets, alive, seeds, n - 1).push((n - 1) as u32)
    } else {
        star_slots_upto(tets, alive, seeds, n - 1)
    }
}

/// The slots of the stars of `seeds`, in slot order.
pub fn star_slots(slab: &TetSlab, seeds: &Vec<usize>) -> (r: Vec<u32>)
    requires
        slab.wf(),
    ensures
        r@ == star_slots_upto(slab.tets@, slab.alive@, seeds@, slab.tets@.len() as int),
{
    let mut r: Vec<u32> = Vec::new();
    let mut s: usize = 0;
    while s < slab.tets.len()
        invariant
            slab.wf(),
            s <= slab.tets@.len(),
            r@ == star_slots_upto(slab.tets@, slab.alive@, seeds@, s as int),
        decreases slab.tets@.len() - s,
    {
        let hit = match slab.tet_at(s as u32) {
            Some(t) => {
                let mut found = false;
                let mut k: usize = 0;
                while k < 4 && !found
                    invariant
                        k <= 4,
                        found ==> exists|k2: int| 0 <= k2 < 4 && #[trigger] seeds@.contains(t[k2]),
                        !found ==> forall|k2: int| 0 <= k2 < k ==> !#[trigger] seeds@.contains(t[k2]),
                    decreases 4 - k + if found { 0int } else { 1 },
                {
                    let mut j: usize = 0;
                    while j < seeds.len() && !found
                        invariant
                            k < 4,
                            j <= seeds@.len(),
                            found ==> exists|k2: int| 0 <= k2 < 4 && #[trigger] seeds@.contains(t[k2]),
                            !found ==> forall|j2: int| 0 <= j2 < j ==> seeds@[j2] != t[k as int],
                        decreases seeds@.len() - j + if found { 0int } else { 1 },
                    {
                        if seeds[j] == t[k] {
                            proof {
                                assert(seeds@.contains(t[k as int]));
                            }
                            found = true;
                        } else {
                            j += 1;
                        }
                    }
                    if !found {
                        k += 1;
                    }
                }
                found
            },
            None => false,
        };
        proof {
            assert(s < slab.tets@.len());
            assert((s as u32) as int == s as int);
            assert(hit == in_star(slab.tets@, slab.alive@, seeds@, s as u32));
        }
        if hit {
            r.push(s as u32);
        }
        s += 1;
    }
    r
}

/// Some live real tet has the triangle `c` (in any order) as a face.
pub open spec fn face_present(tets: Seq<[u32; 4]>, alive: Seq<bool>, c: [usize; 3]) -> bool {
    exists|s: int, i: int|
        0 <= s < tets.len() && 0 <= i < 4 && slab_tet_at(tets, alive, s as u32) is Some && #[trigger] tet_face_key(
            slab_tet_at(tets, alive, s as u32)->0,
            i,
        ) == face_key(c)
}

/// Whether some live real tet has the triangle `c` as a face.
pub fn facet_is_face(slab: &TetSlab, c: [usize; 3]) -> (r: bool)
    requires
        slab.wf(),
    ensures
        r == face_present(slab.tets@, slab.alive@, c),
{
    let key = sorted3(c);
    let mut s: usize = 0;
    while s < slab.tets.len()
        invariant
            slab.wf(),
            s <= slab.tets@.len(),
            key == face_key(c),
            forall|s2: int, i: int|
                0 <= s2 < s && 0 <= i < 4 && slab_tet_at(slab.tets@, slab.alive@, s2 as u32) is Some ==> #[trigger] tet_face_key(
                    slab_tet_at(slab.tets@, slab.alive@, s2 as u32)->0,
                    i,
                ) != key,
        decreases slab.tets@.len() - s,
    {
        if let Some(t) = slab.tet_at(s as u32) {
            let mut i: usize = 0;
            while i < 4
                invariant
                    i <= 4,
                    key == face_key(c),
                    s < slab.tets@.len(),
                    slab_tet_at(slab.tets@, slab.alive@, s as u32) == Some(t),
                    forall|i2: int| 0 <= i2 < i ==> #[trigger] tet_face_key(t, i2) != key,
                decreases 4 - i,
            {
                let g = if i == 0 {
                    sorted3([t[1], t[2], t[3]])
                } else if i == 1 {
                    sorted3([t[0], t[2], t[3]])
                } else if i == 2 {
                    sorted3([t[0], t[1], t[3]])
                } else {
                    sorted3([t[0], t[1], t[2]])
                };
                proof {
                    assert(g == tet_face_key(t, i as int));
                }
                if g[0] == key[0] && g[1] == key[1] && g[2] == key[2] {
                    proof {
                        assert(g =~= key);
                        assert(tet_face_key(slab_tet_at(slab.tets@, slab.alive@, s as u32)->0, i as int) == face_key(c));
                    }
                    return true;
                }
                proof {
                    assert(g != key);
                }
                i += 1;
            }
        }
        s += 1;
    }
    false
}

/// The seed vertices of the facet's sweep (see [`facet_seeds`]).
pub open spec fn seed_seq(chains: SegmentChains, f: FacetRef) -> Seq<usize> {
    seq![f.corners[0], f.corners[1], f.corners[2]] + chains.chain_seqs()[f.edges[0] as int] + chains.chain_seqs()[f.edges[1]
        as int] + chains.chain_seqs()[f.edges[2] as int]
}

/// `q` is a candidate sweep of the facet from the seed slots `starts`
/// (what [`candidate_sweep`] guarantees).
pub open spec fn is_sweep<B: Fn(&[usize; 4]) -> bool>(slab: TetSlab, overlaps: B, starts: Seq<u32>, q: Seq<u32>) -> bool {
    &&& q.no_duplicates()
    &&& forall|k: int| 0 <= k < q.len() ==> slab_tet_at(slab.tets@, slab.alive@, #[trigger] q[k]) is Some
    &&& forall|k: int|
        0 <= k < starts.len() && slab_tet_at(slab.tets@, slab.alive@, #[trigger] starts[k]) is Some ==> q.contains(starts[k])
    &&& sweep_closed_upto(slab.tets@, slab.alive@, slab.neighbors@, overlaps, q, q.len() as int)
    &&& swept_from_seeds(slab.tets@, slab.alive@, slab.neighbors@, overlaps, starts, q)
}

/// `comp` is the component re-tetrahedralized next among the piercing
/// slots `p` (what [`piercing_component`] guarantees).
pub open spec fn is_piercing_component(slab: TetSlab, p: Seq<u32>, comp: Seq<u32>) -> bool {
    &&& p.len() > 0 ==> {
        &&& comp.len() > 0
        &&& p.contains(comp[0])
        &&& forall|k: int| 0 <= k < p.len() ==> comp[0] <= #[trigger] p[k]
    }
    &&& comp.no_duplicates()
    &&& forall|k: int| 0 <= k < comp.len() ==> p.contains(#[trigger] comp[k])
    &&& closed_within(slab.neighbors@, comp, p)
    &&& grown_from_first(slab.neighbors@, comp)
}

/// The new tets of a re-tetrahedralized cavity (what [`retet_cavity`]
/// guarantees of its result): positively oriented, on cavity vertices.
pub open spec fn refills<F: Fn(usize, usize, usize, usize) -> Sign>(
    slab: TetSlab,
    comp: Seq<u32>,
    o: F,
    tets: Seq<[usize; 4]>,
) -> bool {
    forall|j: int|
        0 <= j < tets.len() ==> orient_sign(o, (#[trigger] tets[j])[0], tets[j][1], tets[j][2], tets[j][3])
            == Sign::Positive && forall|k: int| 0 <= k < 4 ==> is_cavity_vertex(slab, comp, #[trigger] tets[j][k])
}

/// The outcome of one facet-recovery step (see [`facet_step`]).
pub enum FacetStep {
    /// An unsplit facet that already is a face of the triangulation.
    Present,
    /// A piece of the facet's boundary chains is not an edge: recover the
    /// chains first.
    Deferred,
    /// No tet of the sweep pierces the facet.
    Clean,
    /// The cavity `comp` of piercing tets and the tets refilling it.
    Retet(Vec<u32>, Vec<[usize; 4]>),
    /// The cavity `comp` could not be refilled.
    Stuck(Vec<u32>),
}

/// One step of recovering facet `f`: an unsplit facet that already is a
/// face needs nothing; a facet whose boundary chains are not all edges is
/// deferred; otherwise the candidate sweep from the stars of the facet's
/// seed vertices (bounded by the box oracle `overlaps`) finds the piercing
/// tets, and the face-connected component of the least piercing slot is
/// re-tetrahedralized. The caller applies the surgery and steps again
/// until the facet is clean.
pub fn facet_step<
    E: Fn(usize, usize) -> bool,
    B: Fn(&[usize; 4]) -> bool,
    Q: Fn(usize) -> Sign,
    F: Fn(usize, usize, usize, usize) -> Sign,
    G: Fn(usize, usize, usize, usize, usize) -> Sign,
    H: Fn(usize, usize, usize, usize) -> Sign,
>(
    slab: &TetSlab,
    chains: &SegmentChains,
    f: &FacetRef,
    edge: &E,
    overlaps: &B,
    side: &Q,
    o: &F,
    ins: &G,
    o2: &H,
) -> (r: FacetStep)
    requires
        slab.wf(),
        chains.wf(),
        facet_in_chains(*chains, *f),
        is_edge_oracle(*edge),
        is_overlap_oracle(*overlaps),
        is_side_oracle(*side),
        is_orient_oracle(*o),
        is_insphere_oracle(*ins),
        is_orient2_oracle(*o2),
    ensures
        r is Present <==> (forall|k: int| 0 <= k < 3 ==> #[trigger] chains.chain_seqs()[f.edges[k] as int].len() == 2)
            && face_present(slab.tets@, slab.alive@, f.corners),
        r is Deferred <==> !(r is Present) && !boundary_intact_by(*chains, *f, *edge),
        !(r is Present) && !(r is Deferred) ==> exists|q: Seq<u32>|
            #[trigger] is_sweep(
                *slab,
                *overlaps,
                star_slots_upto(slab.tets@, slab.alive@, seed_seq(*chains, *f), slab.tets@.len() as int),
                q,
            ) && match r {
                FacetStep::Clean => q.filter(pierce_test(slab.tets@, slab.alive@, *side, *o, f.corners)).len() == 0,
                FacetStep::Retet(comp, tets) => {
                    let p = q.filter(pierce_test(slab.tets@, slab.alive@, *side, *o, f.corners));
                    &&& p.len() > 0
                    &&& is_piercing_component(*slab, p, comp@)
                    &&& refills(*slab, comp@, *o, tets@)
                    &&& retet_built(*slab, comp@, *side, *o, *ins, *o2, tets@)
                },
                FacetStep::Stuck(comp) => {
                    let p = q.filter(pierce_test(slab.tets@, slab.alive@, *side, *o, f.corners));
                    &&& p.len() > 0
                    &&& is_piercing_component(*slab, p, comp@)
                    &&& some_slot_dead(*slab, comp@) || some_face_splits_badly(*slab, comp@, *side) || retet_fails(
                        *slab,
                        comp@,
                        *side,
                        *o,
                        *ins,
                        *o2,
                    )
                },
                _ => false,
            },
{
    if facet_unsplit(chains, f) && facet_is_face(slab, f.corners) {
        return FacetStep::Present;
    }
    if !boundary_intact(chains, f, edge) {
        return FacetStep::Deferred;
    }
    let seeds = facet_seeds(chains, f);
    let starts = star_slots(slab, &seeds);
    let q = candidate_sweep(slab, &starts, overlaps);
    let p = piercing_slots(slab, &q, side, o, f.corners);
    proof {
        assert(seeds@ == seed_seq(*chains, *f));
        assert(is_sweep(*slab, *overlaps, starts@, q@));
        let test = pierce_test(slab.tets@, slab.alive@, *side, *o, f.corners);
        assert forall|k: int| 0 <= k < p@.len() implies (#[trigger] p@[k]) < slab.tets@.len() by {
            q@.lemma_filter_pred(test, k);
            assert(slot_pierces(slab.tets@, slab.alive@, *side, *o, f.corners, p@[k]));
        }
    }
    if p.len() == 0 {
        return FacetStep::Clean;
    }
    let comp = piercing_component(slab, &p);
    match retet_cavity(slab, &comp, side, o, ins, o2) {
        Some(tets) => FacetStep::Retet(comp, tets),
        None => FacetStep::Stuck(comp),
    }
}

} // verus!
