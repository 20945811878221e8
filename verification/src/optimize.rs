//! Bookkeeping of the in-place quality optimizer: the vertex -> tet lists
//! kept current while a tet slot is rewritten or new tets are appended, the
//! smooth groups its surface moves stay within, the sub-tets of a face
//! split, the owner run of a face key in the sorted face entries, and the
//! final compaction of retired slots.
use crate::conform::{RegionTag, SurfaceKind, TetMesh};
use crate::fxmap::fx_set_contains;
use crate::topology::{face_key, oriented_face, oriented_face_of, sorted3};
use rustc_hash::FxHashSet;
use vstd::prelude::*;

verus! {

/// The smooth group of surface face `fi`: faces of one plane patch may be
/// re-tiled freely (`(0, patch)`); faces of one curved analytic surface
/// form a single smooth group (`(1, surface)`).
pub fn face_group(mesh: &TetMesh, fi: usize) -> (g: (u8, u32))
    requires
        fi < mesh.faces@.len(),
        mesh.faces@[fi as int].surface < mesh.surfaces@.len(),
    ensures
        g == if mesh.surfaces@[mesh.faces@[fi as int].surface as int] == SurfaceKind::Plane {
            (0u8, mesh.faces@[fi as int].patch)
        } else {
            (1u8, mesh.faces@[fi as int].surface)
        },
{
    let sf = &mesh.faces[fi];
    match mesh.surfaces[sf.surface as usize] {
        SurfaceKind::Plane => (0, sf.patch),
        _ => (1, sf.surface),
    }
}

/// `v` is one of the four vertices of `t`.
pub open spec fn has_vertex(t: [usize; 4], v: int) -> bool {
    t[0] == v || t[1] == v || t[2] == v || t[3] == v
}

/// `s` with its first occurrence of `x` removed by moving the last element
/// into its place (`Vec::swap_remove` at the first match); `s` itself when
/// `x` does not occur.
pub open spec fn swap_removed(s: Seq<u32>, x: u32) -> Seq<u32> {
    if exists|i: int| 0 <= i < s.len() && s[i] == x && forall|j: int| 0 <= j < i ==> s[j] != x {
        let i = choose|i: int|
            0 <= i < s.len() && s[i] == x && forall|j: int| 0 <= j < i ==> s[j] != x;
        s.update(i, s.last()).drop_last()
    } else {
        s
    }
}

/// The lists after the first `k` vertices of `from` that `to` drops have
/// lost slot `ti`.
pub open spec fn drop_pass(g: Seq<Seq<u32>>, ti: u32, from: [usize; 4], to: [usize; 4], k: int) -> Seq<
    Seq<u32>,
>
    decreases k,
{
    if k <= 0 {
        g
    } else {
        let prev = drop_pass(g, ti, from, to, k - 1);
        let v = from[k - 1];
        if !has_vertex(to, v as int) {
            prev.update(v as int, swap_removed(prev[v as int], ti))
        } else {
            prev
        }
    }
}

/// The lists after the first `k` vertices of `to` that `from` lacks have
/// gained slot `ti`.
pub open spec fn add_pass(g: Seq<Seq<u32>>, ti: u32, from: [usize; 4], to: [usize; 4], k: int) -> Seq<
    Seq<u32>,
>
    decreases k,
{
    if k <= 0 {
        g
    } else {
        let prev = add_pass(g, ti, from, to, k - 1);
        let v = to[k - 1];
        if !has_vertex(from, v as int) {
            prev.update(v as int, prev[v as int].push(ti))
        } else {
            prev
        }
    }
}

/// The vertex -> tet lists after slot `ti` is rewritten from `from` to
/// `to`: vertices it loses drop `ti`, vertices it gains get it appended.
pub open spec fn incidence_rewritten(g: Seq<Seq<u32>>, ti: u32, from: [usize; 4], to: [usize; 4]) -> Seq<
    Seq<u32>,
> {
    add_pass(drop_pass(g, ti, from, to, 4), ti, from, to, 4)
}

/// The views of the incidence lists.
pub open spec fn list_views(g: Seq<Vec<u32>>) -> Seq<Seq<u32>> {
    g.map_values(|l: Vec<u32>| l@)
}

/// Maintains the vertex->tet incidence across an in-place rewrite of slot
/// `ti` from `old` to `new`.
pub fn update_incidence(g_incident: &mut Vec<Vec<u32>>, ti: u32, old_tet: [usize; 4], new_tet: [usize; 4])
    requires
        forall|k: int| 0 <= k < 4 ==> old_tet[k] < old(g_incident)@.len() && new_tet[k] < old(g_incident)@.len(),
    ensures
        list_views(final(g_incident)@) == incidence_rewritten(list_views(old(g_incident)@), ti, old_tet, new_tet),
{
    let ghost g0 = list_views(g_incident@);
    let mut k: usize = 0;
    while k < 4
        invariant
            k <= 4,
            g_incident@.len() == g0.len(),
            forall|m: int| 0 <= m < 4 ==> old_tet[m] < g0.len() && new_tet[m] < g0.len(),
            list_views(g_incident@) == drop_pass(g0, ti, old_tet, new_tet, k as int),
        decreases 4 - k,
    {
        let v = old_tet[k];
        if !(new_tet[0] == v || new_tet[1] == v || new_tet[2] == v || new_tet[3] == v) {
            let ghost before = g_incident@[v as int]@;
            let mut list: Vec<u32> = Vec::new();
            std::mem::swap(&mut list, &mut g_incident[v]);
            proof {
                assert(list@ == before);
            }
            let mut pos: usize = 0;
            let mut found = false;
            while !found && pos < list.len()
                invariant
                    pos <= list@.len(),
                    list@ == before,
                    forall|j: int| 0 <= j < pos ==> list@[j] != ti,
                    found ==> pos < list@.len() && list@[pos as int] == ti,
                decreases list@.len() - pos + if found { 0int } else { 1 },
            {
                if list[pos] == ti {
                    found = true;
                } else {
                    pos += 1;
                }
            }
            if found {
                list.swap_remove(pos);
            }
            proof {
                if found {
                    assert(exists|i: int|
                        0 <= i < before.len() && before[i] == ti && forall|j: int| 0 <= j < i ==> before[j] != ti);
                    let i = choose|i: int|
                        0 <= i < before.len() && before[i] == ti && forall|j: int| 0 <= j < i ==> before[j] != ti;
                    assert(i == pos);
                    assert(list@ =~= swap_removed(before, ti));
                } else {
                    assert(forall|i: int| 0 <= i < before.len() ==> before[i] != ti);
                    assert(list@ == swap_removed(before, ti));
                }
            }
            std::mem::swap(&mut list, &mut g_incident[v]);
            proof {
                assert(list_views(g_incident@) =~= drop_pass(g0, ti, old_tet, new_tet, k + 1));
            }
        }
        k += 1;
    }
    let ghost g1 = list_views(g_incident@);
    let mut k: usize = 0;
    while k < 4
        invariant
            k <= 4,
            g_incident@.len() == g0.len(),
            forall|m: int| 0 <= m < 4 ==> old_tet[m] < g0.len() && new_tet[m] < g0.len(),
            g1 == drop_pass(g0, ti, old_tet, new_tet, 4),
            list_views(g_incident@) == add_pass(g1, ti, old_tet, new_tet, k as int),
        decreases 4 - k,
    {
        let v = new_tet[k];
        if !(old_tet[0] == v || old_tet[1] == v || old_tet[2] == v || old_tet[3] == v) {
            g_incident[v].push(ti);
            proof {
                assert(list_views(g_incident@) =~= add_pass(g1, ti, old_tet, new_tet, k + 1));
            }
        }
        k += 1;
    }
}

/// Every vertex list records tet slot `ti` exactly at the vertices of `t`,
/// once each.
pub open spec fn records_slot(g: Seq<Seq<u32>>, ti: u32, t: [usize; 4]) -> bool {
    forall|v: int|
        0 <= v < g.len() ==> (#[trigger] g[v]).to_multiset().count(ti) == if has_vertex(t, v) {
            1nat
        } else {
            0nat
        }
}

/// The four vertices of `t` are distinct.
pub open spec fn distinct4(t: [usize; 4]) -> bool {
    t[0] != t[1] && t[0] != t[2] && t[0] != t[3] && t[1] != t[2] && t[1] != t[3] && t[2] != t[3]
}

/// Removing the first occurrence removes one copy from the multiset.
proof fn lemma_swap_removed_multiset(s: Seq<u32>, x: u32)
    ensures
        swap_removed(s, x).to_multiset() == if s.contains(x) {
            s.to_multiset().remove(x)
        } else {
            s.to_multiset()
        },
{
    broadcast use vstd::seq_lib::group_to_multiset_ensures;
    broadcast use vstd::multiset::group_multiset_axioms;

    if s.contains(x) {
        let i0 = choose|i: int| 0 <= i < s.len() && s[i] == x;
        lemma_first_occurrence(s, x, i0);
        let i = choose|i: int|
            0 <= i < s.len() && s[i] == x && forall|j: int| 0 <= j < i ==> s[j] != x;
        let u = s.update(i, s.last());
        assert(u.drop_last().push(u.last()) =~= u);
        assert(u.last() == s.last());
        assert(u.to_multiset() == s.to_multiset().insert(s.last()).remove(x));
        assert(u.drop_last().push(u.last()).to_multiset() == u.drop_last().to_multiset().insert(u.last()));
        assert(swap_removed(s, x) == u.drop_last());
        assert(s.to_multiset().count(x) > 0);
        assert forall|y: u32| #[trigger] u.drop_last().to_multiset().count(y) == s.to_multiset().remove(x).count(y) by {
            assert(u.to_multiset().count(y) == u.drop_last().to_multiset().insert(u.last()).count(y));
        }
        assert(u.drop_last().to_multiset() =~= s.to_multiset().remove(x));
    } else {
        assert(!(exists|i: int| 0 <= i < s.len() && s[i] == x && forall|j: int| 0 <= j < i ==> s[j] != x));
    }
}

/// An occurrence of `x` implies a first occurrence.
proof fn lemma_first_occurrence(s: Seq<u32>, x: u32, i: int)
    requires
        0 <= i < s.len(),
        s[i] == x,
    ensures
        exists|k: int| 0 <= k < s.len() && s[k] == x && forall|j: int| 0 <= j < k ==> s[j] != x,
    decreases i,
{
    if exists|j: int| 0 <= j < i && s[j] == x {
        let j = choose|j: int| 0 <= j < i && s[j] == x;
        lemma_first_occurrence(s, x, j);
    } else {
        assert(forall|j: int| 0 <= j < i ==> s[j] != x);
    }
}

/// Effect of the first `k` drop steps on each list's multiset.
proof fn lemma_drop_pass_counts(g: Seq<Seq<u32>>, ti: u32, from: [usize; 4], to: [usize; 4], k: int)
    requires
        0 <= k <= 4,
        forall|m: int| 0 <= m < 4 ==> from[m] < g.len(),
        records_slot(g, ti, from),
    ensures
        drop_pass(g, ti, from, to, k).len() == g.len(),
        forall|v: int|
            0 <= v < g.len() ==> {
                let dropped = !has_vertex(to, v) && exists|m: int| 0 <= m < k && from[m] == v;
                &&& (#[trigger] drop_pass(g, ti, from, to, k)[v]).to_multiset() == if dropped {
                    g[v].to_multiset().remove(ti)
                } else {
                    g[v].to_multiset()
                }
            },
    decreases k,
{
    broadcast use vstd::multiset::group_multiset_axioms;
    broadcast use vstd::seq_lib::group_to_multiset_ensures;

    if k > 0 {
        lemma_drop_pass_counts(g, ti, from, to, k - 1);
        let prev = drop_pass(g, ti, from, to, k - 1);
        let v = from[k - 1] as int;
        assert forall|w: int| 0 <= w < g.len() implies {
            let dropped = !has_vertex(to, w) && exists|m: int| 0 <= m < k && from[m] == w;
            (#[trigger] drop_pass(g, ti, from, to, k)[w]).to_multiset() == if dropped {
                g[w].to_multiset().remove(ti)
            } else {
                g[w].to_multiset()
            }
        } by {
            let was = !has_vertex(to, w) && exists|m: int| 0 <= m < k - 1 && from[m] == w;
            if w == v && !has_vertex(to, w) {
                lemma_swap_removed_multiset(prev[v], ti);
                assert(from[k - 1] == w);
                if was {
                    assert(prev[v].to_multiset().count(ti) == 0);
                    assert(!prev[v].contains(ti));
                    assert(g[v].to_multiset().remove(ti).remove(ti) =~= g[v].to_multiset().remove(ti));
                } else {
                    assert(g[v].to_multiset().count(ti) == 1);
                    assert(prev[v].contains(ti));
                }
            } else {
                if exists|m: int| 0 <= m < k && from[m] == w {
                    let m = choose|m: int| 0 <= m < k && from[m] == w;
                    if !has_vertex(to, w) {
                        assert(m < k - 1);
                    }
                }
            }
        }
    }
}

/// Effect of the first `k` add steps on each list's multiset.
proof fn lemma_add_pass_counts(g: Seq<Seq<u32>>, ti: u32, from: [usize; 4], to: [usize; 4], k: int)
    requires
        0 <= k <= 4,
        forall|m: int| 0 <= m < 4 ==> to[m] < g.len(),
        distinct4(to),
    ensures
        add_pass(g, ti, from, to, k).len() == g.len(),
        forall|v: int|
            0 <= v < g.len() ==> {
                let added = !has_vertex(from, v) && exists|m: int| 0 <= m < k && to[m] == v;
                &&& (#[trigger] add_pass(g, ti, from, to, k)[v]).to_multiset() == if added {
                    g[v].to_multiset().insert(ti)
                } else {
                    g[v].to_multiset()
                }
            },
    decreases k,
{
    broadcast use vstd::multiset::group_multiset_axioms;
    broadcast use vstd::seq_lib::group_to_multiset_ensures;

    if k > 0 {
        lemma_add_pass_counts(g, ti, from, to, k - 1);
        let v = to[k - 1] as int;
        assert forall|w: int| 0 <= w < g.len() implies {
            let added = !has_vertex(from, w) && exists|m: int| 0 <= m < k && to[m] == w;
            (#[trigger] add_pass(g, ti, from, to, k)[w]).to_multiset() == if added {
                g[w].to_multiset().insert(ti)
            } else {
                g[w].to_multiset()
            }
        } by {
            if w == v && !has_vertex(from, w) {
                assert(to[k - 1] == w);
                assert(!exists|m: int| 0 <= m < k - 1 && to[m] == w);
            } else {
                if exists|m: int| 0 <= m < k && to[m] == w {
                    let m = choose|m: int| 0 <= m < k && to[m] == w;
                    if !has_vertex(from, w) {
                        assert(m < k - 1);
                    }
                }
            }
        }
    }
}

/// Rewriting a slot keeps the incidence exact: if the lists record slot
/// `ti` at the vertices of the old tet, afterwards they record it at the
/// vertices of the new tet (once each), and no other slot's entries change.
pub proof fn lemma_rewrite_keeps_incidence(g: Seq<Seq<u32>>, ti: u32, from: [usize; 4], to: [usize; 4])
    requires
        forall|m: int| 0 <= m < 4 ==> from[m] < g.len() && to[m] < g.len(),
        distinct4(to),
        records_slot(g, ti, from),
    ensures
        incidence_rewritten(g, ti, from, to).len() == g.len(),
        records_slot(incidence_rewritten(g, ti, from, to), ti, to),
        forall|v: int, x: u32|
            0 <= v < g.len() && x != ti ==> #[trigger] incidence_rewritten(g, ti, from, to)[v].to_multiset().count(x)
                == g[v].to_multiset().count(x),
{
    broadcast use vstd::multiset::group_multiset_axioms;

    let g1 = drop_pass(g, ti, from, to, 4);
    lemma_drop_pass_counts(g, ti, from, to, 4);
    lemma_add_pass_counts(g1, ti, from, to, 4);
    let g2 = incidence_rewritten(g, ti, from, to);
    assert forall|v: int| 0 <= v < g2.len() implies (#[trigger] g2[v]).to_multiset().count(ti)
        == if has_vertex(to, v) { 1nat } else { 0nat } by {
        assert(g1[v].to_multiset() == if !has_vertex(to, v) && exists|m: int| 0 <= m < 4 && from[m] == v {
            g[v].to_multiset().remove(ti)
        } else {
            g[v].to_multiset()
        });
        if has_vertex(from, v) {
            assert(exists|m: int| 0 <= m < 4 && from[m] == v) by {
                if from[0] == v { assert(from[0] == v); }
                else if from[1] == v { assert(from[1] == v); }
                else if from[2] == v { assert(from[2] == v); }
                else { assert(from[3] == v); }
            }
        }
        if has_vertex(to, v) {
            assert(exists|m: int| 0 <= m < 4 && to[m] == v) by {
                if to[0] == v { assert(to[0] == v); }
                else if to[1] == v { assert(to[1] == v); }
                else if to[2] == v { assert(to[2] == v); }
                else { assert(to[3] == v); }
            }
        }
    }
    assert forall|v: int, x: u32| 0 <= v < g.len() && x != ti implies #[trigger] g2[v].to_multiset().count(x)
        == g[v].to_multiset().count(x) by {
        assert(g1[v].to_multiset().count(x) == g[v].to_multiset().count(x));
    }
}


/// The entries of `s` whose slot is alive, in order.
pub open spec fn alive_only<T>(s: Seq<T>, alive: Seq<bool>, n: int) -> Seq<T>
    decreases n,
{
    if n <= 0 {
        Seq::empty()
    } else if alive[n - 1] {
        alive_only(s, alive, n - 1).push(s[n - 1])
    } else {
        alive_only(s, alive, n - 1)
    }
}

/// Drops the retired tet slots: the live tets and their regions, in slot
/// order.
pub fn compact_alive(mesh: &mut TetMesh, alive: &[bool])
    requires
        alive@.len() == old(mesh).tets@.len(),
        old(mesh).tet_regions@.len() == old(mesh).tets@.len(),
    ensures
        final(mesh).tets@ == alive_only(old(mesh).tets@, alive@, alive@.len() as int),
        final(mesh).tet_regions@ == alive_only(old(mesh).tet_regions@, alive@, alive@.len() as int),
        final(mesh).faces@ == old(mesh).faces@,
        final(mesh).surfaces@ == old(mesh).surfaces@,
{
    let mut tets: Vec<[usize; 4]> = Vec::new();
    let mut regions: Vec<RegionTag> = Vec::new();
    let mut ti: usize = 0;
    while ti < mesh.tets.len()
        invariant
            alive@.len() == mesh.tets@.len(),
            mesh.tet_regions@.len() == mesh.tets@.len(),
            ti <= mesh.tets@.len(),
            tets@ == alive_only(mesh.tets@, alive@, ti as int),
            regions@ == alive_only(mesh.tet_regions@, alive@, ti as int),
        decreases mesh.tets@.len() - ti,
    {
        if alive[ti] {
            tets.push(mesh.tets[ti]);
            regions.push(mesh.tet_regions[ti]);
        }
        ti += 1;
    }
    mesh.tets = tets;
    mesh.tet_regions = regions;
}

/// The incidence lists after slot `ti` joins the lists of the vertices of
/// `t`, in vertex order.
pub open spec fn joined(g: Seq<Seq<u32>>, ti: u32, t: [usize; 4], k: int) -> Seq<Seq<u32>>
    decreases k,
{
    if k <= 0 {
        g
    } else {
        let prev = joined(g, ti, t, k - 1);
        prev.update(t[k - 1] as int, prev[t[k - 1] as int].push(ti))
    }
}

/// The incidence lists after the first `j` added tets took slots `base`,
/// `base + 1`, ... .
pub open spec fn appended_incidence(g: Seq<Seq<u32>>, base: int, added: Seq<([usize; 4], RegionTag)>, j: int) -> Seq<
    Seq<u32>,
>
    decreases j,
{
    if j <= 0 {
        g
    } else {
        joined(appended_incidence(g, base, added, j - 1), (base + j - 1) as u32, added[j - 1].0, 4)
    }
}

proof fn lemma_joined_len(g: Seq<Seq<u32>>, ti: u32, t: [usize; 4], k: int)
    requires
        0 <= k <= 4,
        forall|q: int| 0 <= q < 4 ==> t[q] < g.len(),
    ensures
        joined(g, ti, t, k).len() == g.len(),
    decreases k,
{
    if k > 0 {
        lemma_joined_len(g, ti, t, k - 1);
    }
}

/// Appends a pass's new tets: each takes the next slot, with its region,
/// alive, and joins the incidence lists of its vertices.
pub fn append_tets(
    tets: &mut Vec<[usize; 4]>,
    regions: &mut Vec<RegionTag>,
    alive: &mut Vec<bool>,
    g_incident: &mut Vec<Vec<u32>>,
    added: &[([usize; 4], RegionTag)],
)
    requires
        old(tets)@.len() + added@.len() <= u32::MAX + 1,
        forall|j: int, k: int| 0 <= j < added@.len() && 0 <= k < 4 ==> (#[trigger] added@[j].0[k]) < old(g_incident)@.len(),
    ensures
        final(tets)@ == old(tets)@ + added@.map_values(|a: ([usize; 4], RegionTag)| a.0),
        final(regions)@ == old(regions)@ + added@.map_values(|a: ([usize; 4], RegionTag)| a.1),
        final(alive)@ == old(alive)@ + Seq::new(added@.len(), |j: int| true),
        list_views(final(g_incident)@) == appended_incidence(
            list_views(old(g_incident)@),
            old(tets)@.len() as int,
            added@,
            added@.len() as int,
        ),
{
    let ghost t0 = tets@;
    let ghost r0 = regions@;
    let ghost a0 = alive@;
    let ghost g0 = list_views(g_incident@);
    let mut j: usize = 0;
    while j < added.len()
        invariant
            t0.len() + added@.len() <= u32::MAX + 1,
            forall|jj: int, k: int| 0 <= jj < added@.len() && 0 <= k < 4 ==> (#[trigger] added@[jj].0[k]) < g0.len(),
            j <= added@.len(),
            tets@ == t0 + added@.subrange(0, j as int).map_values(|a: ([usize; 4], RegionTag)| a.0),
            regions@ == r0 + added@.subrange(0, j as int).map_values(|a: ([usize; 4], RegionTag)| a.1),
            alive@ == a0 + Seq::new(j as nat, |q: int| true),
            list_views(g_incident@) == appended_incidence(g0, t0.len() as int, added@, j as int),
            g_incident@.len() == g0.len(),
        decreases added@.len() - j,
    {
        let (t, r) = added[j];
        let ti = tets.len() as u32;
        proof {
            assert(tets@.len() == t0.len() + j);
        }
        tets.push(t);
        regions.push(r);
        alive.push(true);
        let ghost gj = list_views(g_incident@);
        let mut k: usize = 0;
        while k < 4
            invariant
                k <= 4,
                j < added@.len(),
                t == added@[j as int].0,
                forall|q: int| 0 <= q < 4 ==> t[q] < g0.len(),
                g_incident@.len() == g0.len(),
                gj.len() == g0.len(),
                list_views(g_incident@) == joined(gj, ti, t, k as int),
            decreases 4 - k,
        {
            let v = t[k];
            let ghost before = list_views(g_incident@);
            proof {
                lemma_joined_len(gj, ti, t, k as int);
            }
            let mut list: Vec<u32> = Vec::new();
            std::mem::swap(&mut list, &mut g_incident[v]);
            list.push(ti);
            std::mem::swap(&mut list, &mut g_incident[v]);
            proof {
                assert(list_views(g_incident@) =~= before.update(v as int, before[v as int].push(ti)));
            }
            k += 1;
        }
        proof {
            assert(ti == (t0.len() + j) as u32);
            assert(added@.subrange(0, j + 1).map_values(|a: ([usize; 4], RegionTag)| a.0) =~= added@.subrange(
                0,
                j as int,
            ).map_values(|a: ([usize; 4], RegionTag)| a.0).push(t));
            assert(added@.subrange(0, j + 1).map_values(|a: ([usize; 4], RegionTag)| a.1) =~= added@.subrange(
                0,
                j as int,
            ).map_values(|a: ([usize; 4], RegionTag)| a.1).push(r));
            assert(Seq::new((j + 1) as nat, |q: int| true) =~= Seq::new(j as nat, |q: int| true).push(true));
        }
        j += 1;
    }
    proof {
        assert(added@.subrange(0, added@.len() as int) =~= added@);
    }
}

/// The tets that replace owner tet `ot` when its face `f` is split at the
/// new vertex `xi`: one per face vertex, that vertex replaced by `xi`.
pub fn split_owner_tets(ot: [usize; 4], f: [usize; 3], xi: usize) -> (r: [[usize; 4]; 3])
    ensures
        forall|j: int, k: int|
            0 <= j < 3 && 0 <= k < 4 ==> #[trigger] r[j][k] == if ot[k] == f[j] {
                xi
            } else {
                ot[k]
            },
{
    let mut r = [[0usize; 4]; 3];
    let mut j: usize = 0;
    while j < 3
        invariant
            j <= 3,
            forall|jj: int, k: int|
                0 <= jj < j && 0 <= k < 4 ==> #[trigger] r[jj][k] == if ot[k] == f[jj] {
                    xi
                } else {
                    ot[k]
                },
        decreases 3 - j,
    {
        let fv = f[j];
        let nt = [
            if ot[0] == fv { xi } else { ot[0] },
            if ot[1] == fv { xi } else { ot[1] },
            if ot[2] == fv { xi } else { ot[2] },
            if ot[3] == fv { xi } else { ot[3] },
        ];
        r[j] = nt;
        j += 1;
    }
    r
}


/// Lexicographic order on face keys.
pub open spec fn key_lt(a: [usize; 3], b: [usize; 3]) -> bool {
    a[0] < b[0] || (a[0] == b[0] && (a[1] < b[1] || (a[1] == b[1] && a[2] < b[2])))
}

fn key_less(a: [usize; 3], b: [usize; 3]) -> (r: bool)
    ensures
        r == key_lt(a, b),
{
    a[0] < b[0] || (a[0] == b[0] && (a[1] < b[1] || (a[1] == b[1] && a[2] < b[2])))
}

/// The entries are ordered by key.
pub open spec fn keys_sorted(entries: Seq<([usize; 3], u32)>) -> bool {
    forall|i: int, j: int| 0 <= i < j < entries.len() ==> !key_lt(#[trigger] entries[j].0, #[trigger] entries[i].0)
}

/// The run of entries keyed `key` in key-sorted `entries`, as the half-open
/// index range `(lo, hi)`: `lo` is the first entry not below `key` (a
/// binary search), `hi` the first entry after it with another key.
pub fn owners_of(entries: &[([usize; 3], u32)], key: [usize; 3]) -> (r: (usize, usize))
    requires
        keys_sorted(entries@),
    ensures
        r.0 <= r.1 <= entries@.len(),
        forall|i: int| 0 <= i < r.0 ==> key_lt(#[trigger] entries@[i].0, key),
        forall|i: int| r.0 <= i < r.1 ==> #[trigger] entries@[i].0 == key,
        forall|i: int| r.1 <= i < entries@.len() ==> key_lt(key, #[trigger] entries@[i].0),
{
    let mut lo: usize = 0;
    let mut hi: usize = entries.len();
    while lo < hi
        invariant
            keys_sorted(entries@),
            lo <= hi <= entries@.len(),
            forall|i: int| 0 <= i < lo ==> key_lt(#[trigger] entries@[i].0, key),
            forall|i: int| hi <= i < entries@.len() ==> !key_lt(#[trigger] entries@[i].0, key),
        decreases hi - lo,
    {
        let mid = lo + (hi - lo) / 2;
        if key_less(entries[mid].0, key) {
            proof {
                assert forall|i: int| 0 <= i < mid + 1 implies key_lt(#[trigger] entries@[i].0, key) by {
                    if i < mid {
                        let a = entries@[i].0;
                        let b = entries@[mid as int].0;
                        assert(!key_lt(b, a));
                    }
                }
            }
            lo = mid + 1;
        } else {
            proof {
                assert forall|i: int| mid <= i < entries@.len() implies !key_lt(#[trigger] entries@[i].0, key) by {
                    if i > mid {
                        assert(!key_lt(entries@[i].0, entries@[mid as int].0));
                    }
                }
            }
            hi = mid;
        }
    }
    let mut end = lo;
    let mut same = true;
    while end < entries.len() && same
        invariant
            keys_sorted(entries@),
            forall|i: int| lo <= i < entries@.len() ==> !key_lt(#[trigger] entries@[i].0, key),
            lo <= end <= entries@.len(),
            forall|i: int| lo <= i < end ==> #[trigger] entries@[i].0 == key,
            !same ==> end < entries@.len() && entries@[end as int].0 != key,
        decreases entries@.len() - end + if same { 1int } else { 0int },
    {
        let e = entries[end].0;
        if e[0] == key[0] && e[1] == key[1] && e[2] == key[2] {
            proof {
                assert(e =~= key);
            }
            end += 1;
        } else {
            same = false;
        }
    }
    proof {
        assert forall|i: int| end <= i < entries@.len() implies key_lt(key, #[trigger] entries@[i].0) by {
            let e = entries@[end as int].0;
            assert(e != key);
            assert(!key_lt(e, key));
            assert(key_lt(key, e)) by {
                if !key_lt(key, e) {
                    assert(e =~= key);
                }
            }
            if i > end {
                assert(!key_lt(entries@[i].0, e));
            }
        }
    }
    (lo, end)
}


/// Inserts `x` into the strictly ascending list `v`, unless present.
#[verifier::spinoff_prover]
fn insert_sorted_unique(v: &mut Vec<usize>, x: usize)
    requires
        forall|i: int, j: int| 0 <= i < j < old(v)@.len() ==> old(v)@[i] < old(v)@[j],
    ensures
        forall|i: int, j: int| 0 <= i < j < final(v)@.len() ==> final(v)@[i] < final(v)@[j],
        forall|y: usize| final(v)@.contains(y) <==> old(v)@.contains(y) || y == x,
{
    let mut p: usize = 0;
    while p < v.len() && v[p] < x
        invariant
            v@ == old(v)@,
            p <= v@.len(),
            forall|i: int| 0 <= i < p ==> v@[i] < x,
        decreases v@.len() - p,
    {
        p += 1;
    }
    if p < v.len() && v[p] == x {
        proof {
            assert(v@[p as int] == x);
            assert(v@.contains(x));
        }
        return;
    }
    let ghost v0 = v@;
    proof {
        assert(v0 == old(v)@);
    }
    v.insert(p, x);
    proof {
        assert(v@ == v0.insert(p as int, x));
        assert forall|i: int, j: int| 0 <= i < j < v@.len() implies v@[i] < v@[j] by {
            if j < p {
            } else if j == p {
            } else if i < p {
                assert(v@[j] == v0[j - 1]);
                assert(v0[j - 1] > x || v0[j - 1] >= v0[p as int]);
            } else if i == p {
                assert(v@[j] == v0[j - 1]);
                assert(v0[p as int] > x);
                if j - 1 > p {
                    assert(v0[p as int] < v0[j - 1]);
                }
            } else {
                assert(v@[i] == v0[i - 1] && v@[j] == v0[j - 1]);
            }
        }
        assert forall|y: usize| v@.contains(y) <==> old(v)@.contains(y) || y == x by {
            if v0.contains(y) {
                let w = choose|w: int| 0 <= w < v0.len() && v0[w] == y;
                if w < p {
                    assert(v@[w] == y);
                    assert(v@.contains(y));
                } else {
                    assert(v@[w + 1] == y);
                    assert(v@.contains(y));
                }
            }
            if y == x {
                assert(v@[p as int] == x);
                assert(v@.contains(y));
            }
            if v@.contains(y) {
                let w = choose|w: int| 0 <= w < v@.len() && v@[w] == y;
                if w < p {
                    assert(v0[w] == y);
                    assert(v0.contains(y));
                } else if w > p {
                    assert(v0[w - 1] == y);
                    assert(v0.contains(y));
                }
            }
        }
        assert(v0 == old(v)@);
    }
}

/// Entry `j` of the face entries is an owner of face `i` of slot `ti`, a
/// face that is not constrained.
pub open spec fn owns_face_of(
    tets: Seq<[usize; 4]>,
    entries: Seq<([usize; 3], u32)>,
    constrained: Set<[usize; 3]>,
    ti: int,
    i: int,
    j: int,
) -> bool {
    &&& 0 <= i < 4
    &&& 0 <= j < entries.len()
    &&& !constrained.contains(face_key(oriented_face_of(tets[ti], i)))
    &&& entries[j].0 == face_key(oriented_face_of(tets[ti], i))
}

/// Slot `x` joins the insertion cavity of slot `ti`: it owns a face of
/// `ti` that is not constrained, and is another live tet of the same
/// region.
pub open spec fn joins_cavity(
    tets: Seq<[usize; 4]>,
    regions: Seq<RegionTag>,
    alive: Seq<bool>,
    entries: Seq<([usize; 3], u32)>,
    constrained: Set<[usize; 3]>,
    ti: int,
    x: usize,
) -> bool {
    &&& x != ti
    &&& x < tets.len()
    &&& alive[x as int]
    &&& regions[x as int] == regions[ti]
    &&& exists|i: int, j: int| #[trigger] owns_face_of(tets, entries, constrained, ti, i, j) && entries[j].1 == x
}

/// Slot `x` is reached through the faces of `ti` before face `upto`.
pub open spec fn reached_before(
    tets: Seq<[usize; 4]>,
    entries: Seq<([usize; 3], u32)>,
    constrained: Set<[usize; 3]>,
    ti: int,
    upto: int,
    x: usize,
) -> bool {
    exists|i: int, j: int| i < upto && #[trigger] owns_face_of(tets, entries, constrained, ti, i, j) && entries[j].1 == x
}

/// The cavity a vertex insertion at bad tet `ti` retriangulates: `ti` and
/// the other live same-region owners of its unconstrained faces (looked up
/// in the key-sorted face entries), ascending and without repeats.
pub fn insertion_cavity(
    mesh: &TetMesh,
    alive: &[bool],
    entries: &[([usize; 3], u32)],
    constrained: &FxHashSet<[usize; 3]>,
    ti: usize,
) -> (c: Vec<usize>)
    requires
        ti < mesh.tets@.len(),
        alive@.len() == mesh.tets@.len(),
        mesh.tet_regions@.len() == mesh.tets@.len(),
        keys_sorted(entries@),
        forall|j: int| 0 <= j < entries@.len() ==> (#[trigger] entries@[j]).1 < mesh.tets@.len(),
    ensures
        forall|i: int, j: int| 0 <= i < j < c@.len() ==> c@[i] < c@[j],
        forall|x: usize|
            c@.contains(x) <==> x == ti || joins_cavity(
                mesh.tets@,
                mesh.tet_regions@,
                alive@,
                entries@,
                constrained@,
                ti as int,
                x,
            ),
{
    let ghost tt = mesh.tets@;
    let ghost rg = mesh.tet_regions@;
    let ghost en = entries@;
    let ghost cs = constrained@;
    let t = mesh.tets[ti];
    let region = mesh.tet_regions[ti];
    let mut cavity: Vec<usize> = Vec::new();
    insert_sorted_unique(&mut cavity, ti);
    let mut i: usize = 0;
    while i < 4
        invariant
            tt == mesh.tets@,
            rg == mesh.tet_regions@,
            en == entries@,
            cs == constrained@,
            ti < tt.len(),
            t == tt[ti as int],
            region == rg[ti as int],
            alive@.len() == tt.len(),
            rg.len() == tt.len(),
            keys_sorted(en),
            forall|j: int| 0 <= j < en.len() ==> (#[trigger] en[j]).1 < tt.len(),
            i <= 4,
            forall|a: int, b: int| 0 <= a < b < cavity@.len() ==> cavity@[a] < cavity@[b],
            forall|x: usize|
                cavity@.contains(x) <==> x == ti || (joins_cavity(tt, rg, alive@, en, cs, ti as int, x)
                    && reached_before(tt, en, cs, ti as int, i as int, x)),
        decreases 4 - i,
    {
        let key = sorted3(oriented_face(t, i));
        if !fx_set_contains(constrained, &key) {
            let (lo, hi) = owners_of(entries, key);
            let mut k = lo;
            while k < hi
                invariant
                    tt == mesh.tets@,
                    rg == mesh.tet_regions@,
                    en == entries@,
                    cs == constrained@,
                    ti < tt.len(),
                    t == tt[ti as int],
                    region == rg[ti as int],
                    alive@.len() == tt.len(),
                    rg.len() == tt.len(),
                    forall|j: int| 0 <= j < en.len() ==> (#[trigger] en[j]).1 < tt.len(),
                    i < 4,
                    key == face_key(oriented_face_of(t, i as int)),
                    !cs.contains(key),
                    lo <= k <= hi <= en.len(),
                    forall|q: int| lo <= q < hi ==> #[trigger] en[q].0 == key,
                    forall|a: int, b: int| 0 <= a < b < cavity@.len() ==> cavity@[a] < cavity@[b],
                    forall|x: usize|
                        cavity@.contains(x) <==> x == ti || (joins_cavity(tt, rg, alive@, en, cs, ti as int, x) && (
                        reached_before(tt, en, cs, ti as int, i as int, x) || exists|j: int|
                            lo <= j < k && #[trigger] en[j].1 == x)),
                decreases hi - k,
            {
                let nb = entries[k].1 as usize;
                proof {
                    assert(owns_face_of(tt, en, cs, ti as int, i as int, k as int));
                }
                if nb != ti && alive[nb] && mesh.tet_regions[nb] == region {
                    insert_sorted_unique(&mut cavity, nb);
                }
                proof {
                    assert forall|x: usize|
                        cavity@.contains(x) <==> x == ti || (joins_cavity(tt, rg, alive@, en, cs, ti as int, x) && (
                        reached_before(tt, en, cs, ti as int, i as int, x) || exists|j: int|
                            lo <= j < k + 1 && #[trigger] en[j].1 == x)) by {
                        if x == nb {
                            assert(en[k as int].1 as usize == x);
                        }
                    }
                }
                k += 1;
            }
            proof {
                assert forall|x: usize|
                    cavity@.contains(x) <==> x == ti || (joins_cavity(tt, rg, alive@, en, cs, ti as int, x)
                        && reached_before(tt, en, cs, ti as int, i + 1, x)) by {
                    if x != ti && joins_cavity(tt, rg, alive@, en, cs, ti as int, x) {
                        if exists|j: int| lo <= j < hi && #[trigger] en[j].1 == x {
                            let j = choose|j: int| lo <= j < hi && #[trigger] en[j].1 == x;
                            assert(owns_face_of(tt, en, cs, ti as int, i as int, j));
                        }
                        if reached_before(tt, en, cs, ti as int, i + 1, x) && !reached_before(
                            tt,
                            en,
                            cs,
                            ti as int,
                            i as int,
                            x,
                        ) {
                            let (i2, j) = choose|i2: int, j: int|
                                i2 < i + 1 && #[trigger] owns_face_of(tt, en, cs, ti as int, i2, j) && en[j].1 == x;
                            assert(i2 == i);
                            assert(lo <= j < hi) by {
                                if j < lo {
                                    assert(key_lt(en[j].0, key));
                                }
                                if j >= hi {
                                    assert(key_lt(key, en[j].0));
                                }
                            }
                        }
                    }
                }
            }
        } else {
            proof {
                assert forall|x: usize|
                    cavity@.contains(x) <==> x == ti || (joins_cavity(tt, rg, alive@, en, cs, ti as int, x)
                        && reached_before(tt, en, cs, ti as int, i + 1, x)) by {
                    if reached_before(tt, en, cs, ti as int, i + 1, x) && !reached_before(tt, en, cs, ti as int, i as int, x) {
                        let (i2, j) = choose|i2: int, j: int|
                            i2 < i + 1 && #[trigger] owns_face_of(tt, en, cs, ti as int, i2, j) && en[j].1 == x;
                        assert(i2 == i);
                    }
                }
            }
        }
        i += 1;
    }
    proof {
        assert forall|x: usize|
            cavity@.contains(x) <==> x == ti || joins_cavity(tt, rg, alive@, en, cs, ti as int, x) by {
            if joins_cavity(tt, rg, alive@, en, cs, ti as int, x) {
                let (i2, j) = choose|i2: int, j: int| #[trigger] owns_face_of(tt, en, cs, ti as int, i2, j) && en[j].1 == x;
                assert(reached_before(tt, en, cs, ti as int, 4, x));
            }
        }
    }
    cavity
}


/// How many of the first `n` keys equal `key`.
pub open spec fn key_count(keys: Seq<[usize; 3]>, key: [usize; 3], n: int) -> nat
    decreases n,
{
    if n <= 0 {
        0
    } else {
        key_count(keys, key, n - 1) + if keys[n - 1] == key {
            1nat
        } else {
            0nat
        }
    }
}

/// The oriented faces of the first `n` cavity tets, tet by tet, face by
/// face.
pub open spec fn cavity_faces(tets: Seq<[usize; 4]>, cavity: Seq<usize>, n: int) -> Seq<[usize; 3]>
    decreases n,
{
    if n <= 0 {
        Seq::empty()
    } else {
        let t = tets[cavity[n - 1] as int];
        cavity_faces(tets, cavity, n - 1) + seq![
            oriented_face_of(t, 0),
            oriented_face_of(t, 1),
            oriented_face_of(t, 2),
            oriented_face_of(t, 3),
        ]
    }
}

/// The sorted keys of a face list.
pub open spec fn keys_of(faces: Seq<[usize; 3]>) -> Seq<[usize; 3]> {
    faces.map_values(|f: [usize; 3]| face_key(f))
}

/// Face `f` is on the cavity boundary: it is a face of exactly one cavity
/// tet (its key occurs once).
pub open spec fn single_face(faces: Seq<[usize; 3]>, f: [usize; 3]) -> bool {
    exists|p: int|
        0 <= p < faces.len() && #[trigger] faces[p] == f && key_count(keys_of(faces), face_key(f), faces.len() as int)
            == 1
}

/// Some interior face of the cavity (a key shared by two of its faces) is
/// constrained.
pub open spec fn constrained_inside(faces: Seq<[usize; 3]>, constrained: Set<[usize; 3]>) -> bool {
    exists|p: int|
        0 <= p < faces.len() && key_count(keys_of(faces), face_key(#[trigger] faces[p]), faces.len() as int) >= 2
            && constrained.contains(face_key(faces[p]))
}

proof fn lemma_key_count_bound(keys: Seq<[usize; 3]>, key: [usize; 3], n: int)
    requires
        0 <= n <= keys.len(),
    ensures
        key_count(keys, key, n) <= n,
    decreases n,
{
    if n > 0 {
        lemma_key_count_bound(keys, key, n - 1);
    }
}

proof fn lemma_cavity_faces_len(tets: Seq<[usize; 4]>, cavity: Seq<usize>, n: int)
    requires
        0 <= n,
    ensures
        cavity_faces(tets, cavity, n).len() == 4 * n,
    decreases n,
{
    if n > 0 {
        lemma_cavity_faces_len(tets, cavity, n - 1);
    }
}

/// Inserts face `f` into the list `b` kept strictly ascending by key.
#[verifier::spinoff_prover]
fn insert_by_key(b: &mut Vec<[usize; 3]>, f: [usize; 3])
    requires
        forall|i: int, j: int| 0 <= i < j < old(b)@.len() ==> key_lt(face_key(old(b)@[i]), face_key(old(b)@[j])),
        forall|i: int| 0 <= i < old(b)@.len() ==> face_key(#[trigger] old(b)@[i]) != face_key(f),
    ensures
        forall|i: int, j: int| 0 <= i < j < final(b)@.len() ==> key_lt(face_key(final(b)@[i]), face_key(final(b)@[j])),
        forall|g: [usize; 3]| final(b)@.contains(g) <==> old(b)@.contains(g) || g == f,
{
    let k = sorted3(f);
    let mut p: usize = 0;
    while p < b.len() && key_less(sorted3(b[p]), k)
        invariant
            b@ == old(b)@,
            k == face_key(f),
            p <= b@.len(),
            forall|i: int| 0 <= i < p ==> key_lt(face_key(#[trigger] b@[i]), k),
        decreases b@.len() - p,
    {
        p += 1;
    }
    let ghost b0 = b@;
    proof {
        assert(b0 == old(b)@);
    }
    b.insert(p, f);
    proof {
        assert(b@ == b0.insert(p as int, f));
        if p < b0.len() {
            assert(!key_lt(face_key(b0[p as int]), k));
            assert(face_key(b0[p as int]) != k);
            assert(key_lt(k, face_key(b0[p as int]))) by {
                let a = face_key(b0[p as int]);
                if !key_lt(k, a) {
                    assert(a =~= k);
                }
            }
        }
        assert forall|i: int, j: int| 0 <= i < j < b@.len() implies key_lt(face_key(b@[i]), face_key(b@[j])) by {
            if j < p {
            } else if j == p {
                assert(b@[i] == b0[i]);
            } else if i < p {
                assert(b@[j] == b0[j - 1]);
                assert(b@[i] == b0[i]);
                assert(key_lt(face_key(b0[i]), k));
                if j - 1 > p {
                    assert(key_lt(face_key(b0[p as int]), face_key(b0[j - 1])));
                }
            } else if i == p {
                assert(b@[j] == b0[j - 1]);
                if j - 1 > p {
                    assert(key_lt(face_key(b0[p as int]), face_key(b0[j - 1])));
                }
            } else {
                assert(b@[i] == b0[i - 1] && b@[j] == b0[j - 1]);
            }
        }
        assert forall|g: [usize; 3]| b@.contains(g) <==> old(b)@.contains(g) || g == f by {
            if b0.contains(g) {
                let w = choose|w: int| 0 <= w < b0.len() && b0[w] == g;
                if w < p {
                    assert(b@[w] == g);
                } else {
                    assert(b@[w + 1] == g);
                }
                assert(b@.contains(g));
            }
            if g == f {
                assert(b@[p as int] == f);
                assert(b@.contains(g));
            }
            if b@.contains(g) {
                let w = choose|w: int| 0 <= w < b@.len() && b@[w] == g;
                if w < p {
                    assert(b0[w] == g);
                    assert(b0.contains(g));
                } else if w > p {
                    assert(b0[w - 1] == g);
                    assert(b0.contains(g));
                }
            }
        }
        assert(b0 == old(b)@);
    }
}

/// The boundary faces of an insertion cavity, ascending by key: the faces
/// of exactly one cavity tet, as that tet winds them. `None` when a face
/// shared by two cavity tets is constrained.
pub fn cavity_boundary_faces(mesh: &TetMesh, cavity: &[usize], constrained: &FxHashSet<[usize; 3]>) -> (r: Option<
    Vec<[usize; 3]>,
>)
    requires
        forall|c: int| 0 <= c < cavity@.len() ==> (#[trigger] cavity@[c]) < mesh.tets@.len(),
    ensures
        r is None <==> constrained_inside(cavity_faces(mesh.tets@, cavity@, cavity@.len() as int), constrained@),
        r matches Some(b) ==> {
            &&& forall|i: int, j: int| 0 <= i < j < b@.len() ==> key_lt(face_key(b@[i]), face_key(b@[j]))
            &&& forall|f: [usize; 3]|
                b@.contains(f) <==> single_face(cavity_faces(mesh.tets@, cavity@, cavity@.len() as int), f)
        },
{
    let ghost tt = mesh.tets@;
    let mut faces: Vec<[usize; 3]> = Vec::new();
    let mut keys: Vec<[usize; 3]> = Vec::new();
    let mut c: usize = 0;
    while c < cavity.len()
        invariant
            tt == mesh.tets@,
            forall|q: int| 0 <= q < cavity@.len() ==> (#[trigger] cavity@[q]) < tt.len(),
            c <= cavity@.len(),
            faces@ == cavity_faces(tt, cavity@, c as int),
            keys@ == keys_of(faces@),
        decreases cavity@.len() - c,
    {
        let t = mesh.tets[cavity[c]];
        let mut i: usize = 0;
        let ghost f0 = faces@;
        while i < 4
            invariant
                i <= 4,
                t == tt[cavity@[c as int] as int],
                faces@ == f0 + Seq::new(i as nat, |q: int| oriented_face_of(t, q)),
                keys@ == keys_of(faces@),
            decreases 4 - i,
        {
            let f = oriented_face(t, i);
            let ghost fb = faces@;
            faces.push(f);
            keys.push(sorted3(f));
            proof {
                assert(Seq::new((i + 1) as nat, |q: int| oriented_face_of(t, q)) =~= Seq::new(
                    i as nat,
                    |q: int| oriented_face_of(t, q),
                ).push(oriented_face_of(t, i as int)));
                assert(keys_of(faces@) =~= keys_of(fb).push(face_key(f)));
            }
            i += 1;
        }
        proof {
            assert(Seq::new(4, |q: int| oriented_face_of(t, q)) =~= seq![
                oriented_face_of(t, 0),
                oriented_face_of(t, 1),
                oriented_face_of(t, 2),
                oriented_face_of(t, 3),
            ]);
        }
        c += 1;
    }
    let ghost all = faces@;
    proof {
        assert(all == cavity_faces(tt, cavity@, cavity@.len() as int));
    }
    let n = faces.len();
    let mut b: Vec<[usize; 3]> = Vec::new();
    let mut p: usize = 0;
    while p < n
        invariant
            n == all.len(),
            faces@ == all,
            all == cavity_faces(tt, cavity@, cavity@.len() as int),
            tt == mesh.tets@,
            keys@ == keys_of(all),
            p <= n,
            forall|i: int, j: int| 0 <= i < j < b@.len() ==> key_lt(face_key(b@[i]), face_key(b@[j])),
            forall|q: int|
                0 <= q < p ==> !(key_count(keys_of(all), face_key(#[trigger] all[q]), n as int) >= 2 && constrained@.contains(
                    face_key(all[q]),
                )),
            forall|f: [usize; 3]|
                b@.contains(f) <==> exists|q: int|
                    0 <= q < p && #[trigger] all[q] == f && key_count(keys_of(all), face_key(f), n as int) == 1,
        decreases n - p,
    {
        let key = keys[p];
        let mut cnt: usize = 0;
        let mut q: usize = 0;
        while q < n
            invariant
                n == all.len(),
                keys@ == keys_of(all),
                q <= n,
                p < n,
                key == face_key(all[p as int]),
                cnt == key_count(keys_of(all), key, q as int),
            decreases n - q,
        {
            proof {
                lemma_key_count_bound(keys_of(all), key, q as int);
            }
            let kq = keys[q];
            if kq[0] == key[0] && kq[1] == key[1] && kq[2] == key[2] {
                proof {
                    assert(kq =~= key);
                }
                cnt += 1;
            } else {
                proof {
                    assert(kq != key);
                }
            }
            q += 1;
        }
        if cnt >= 2 && fx_set_contains(constrained, &key) {
            proof {
                assert(constrained_inside(all, constrained@));
            }
            return None;
        }
        if cnt == 1 {
            proof {
                assert forall|i: int| 0 <= i < b@.len() implies face_key(#[trigger] b@[i]) != face_key(all[p as int]) by {
                    assert(b@.contains(b@[i]));
                    let q2 = choose|q2: int|
                        0 <= q2 < p && #[trigger] all[q2] == b@[i] && key_count(keys_of(all), face_key(b@[i]), n as int)
                            == 1;
                    if face_key(b@[i]) == face_key(all[p as int]) {
                        lemma_two_occurrences(keys_of(all), key, q2, p as int, n as int);
                    }
                }
            }
            insert_by_key(&mut b, faces[p]);
        }
        proof {
            assert forall|f: [usize; 3]|
                b@.contains(f) <==> exists|q2: int|
                    0 <= q2 < p + 1 && #[trigger] all[q2] == f && key_count(keys_of(all), face_key(f), n as int) == 1 by {
                if f == all[p as int] && cnt == 1 {
                    assert(b@.contains(f));
                }
            }
        }
        p += 1;
    }
    proof {
        assert forall|f: [usize; 3]| b@.contains(f) <==> single_face(all, f) by {}
        if constrained_inside(all, constrained@) {
            let q = choose|q: int|
                0 <= q < all.len() && key_count(keys_of(all), face_key(#[trigger] all[q]), all.len() as int) >= 2
                    && constrained@.contains(face_key(all[q]));
            assert(false);
        }
    }
    Some(b)
}

/// Two occurrences of `key` at `a < n` and `b < n` (`a != b`) make its count
/// at least two.
proof fn lemma_two_occurrences(keys: Seq<[usize; 3]>, key: [usize; 3], a: int, b: int, n: int)
    requires
        0 <= a < n,
        0 <= b < n,
        a != b,
        n <= keys.len(),
        keys[a] == key,
        keys[b] == key,
    ensures
        key_count(keys, key, n) >= 2,
    decreases n,
{
    if a == n - 1 || b == n - 1 {
        let other = if a == n - 1 { b } else { a };
        lemma_one_occurrence(keys, key, other, n - 1);
    } else {
        lemma_two_occurrences(keys, key, a, b, n - 1);
    }
}

/// An occurrence of `key` below `n` makes its count positive.
proof fn lemma_one_occurrence(keys: Seq<[usize; 3]>, key: [usize; 3], a: int, n: int)
    requires
        0 <= a < n,
        n <= keys.len(),
        keys[a] == key,
    ensures
        key_count(keys, key, n) >= 1,
    decreases n,
{
    if a < n - 1 {
        lemma_one_occurrence(keys, key, a, n - 1);
    }
}


/// `slice::sort_unstable` on (face key, slot) entries. std's `Ord` on tuples
/// and arrays is lexicographic, so the entries come out ordered by key, and
/// sorting permutes them.
#[verifier::external_body]
fn sort_face_entries(v: &mut Vec<([usize; 3], u32)>)
    ensures
        final(v)@.to_multiset() == old(v)@.to_multiset(),
        keys_sorted(final(v)@),
{
    v.sort_unstable();
}

/// The key of face `i` of `t` as the optimizer's face map lists it: the
/// sorted vertices other than `t[i]`.
pub open spec fn map_face_key(t: [usize; 4], i: int) -> [usize; 3] {
    face_key([t[(i + 1) % 4], t[(i + 2) % 4], t[(i + 3) % 4]])
}

/// The (face key, slot) entries of the first `n` listed slots, slot by slot
/// and face by face.
pub open spec fn face_entry_list(tets: Seq<[usize; 4]>, ids: Seq<u32>, n: int) -> Seq<([usize; 3], u32)>
    decreases n,
{
    if n <= 0 {
        Seq::empty()
    } else {
        let t = tets[ids[n - 1] as int];
        face_entry_list(tets, ids, n - 1) + seq![
            (map_face_key(t, 0), ids[n - 1]),
            (map_face_key(t, 1), ids[n - 1]),
            (map_face_key(t, 2), ids[n - 1]),
            (map_face_key(t, 3), ids[n - 1]),
        ]
    }
}

/// The face map of the listed tet slots: every face of every listed tet,
/// keyed by its sorted vertices, ordered by key.
pub fn face_entries_of(tets: &Vec<[usize; 4]>, ids: &[u32]) -> (e: Vec<([usize; 3], u32)>)
    requires
        forall|j: int| 0 <= j < ids@.len() ==> (#[trigger] ids@[j]) < tets@.len(),
    ensures
        keys_sorted(e@),
        e@.to_multiset() == face_entry_list(tets@, ids@, ids@.len() as int).to_multiset(),
{
    let mut e: Vec<([usize; 3], u32)> = Vec::new();
    let mut j: usize = 0;
    while j < ids.len()
        invariant
            forall|q: int| 0 <= q < ids@.len() ==> (#[trigger] ids@[q]) < tets@.len(),
            j <= ids@.len(),
            e@ == face_entry_list(tets@, ids@, j as int),
        decreases ids@.len() - j,
    {
        let id = ids[j];
        let t = tets[id as usize];
        let ghost e0 = e@;
        e.push((sorted3([t[1], t[2], t[3]]), id));
        e.push((sorted3([t[2], t[3], t[0]]), id));
        e.push((sorted3([t[3], t[0], t[1]]), id));
        e.push((sorted3([t[0], t[1], t[2]]), id));
        proof {
            assert(map_face_key(t, 0) == face_key([t[1], t[2], t[3]]));
            assert(map_face_key(t, 1) == face_key([t[2], t[3], t[0]]));
            assert(map_face_key(t, 2) == face_key([t[3], t[0], t[1]]));
            assert(map_face_key(t, 3) == face_key([t[0], t[1], t[2]]));
            assert(e@ =~= face_entry_list(tets@, ids@, j + 1));
        }
        j += 1;
    }
    sort_face_entries(&mut e);
    e
}

} // verus!
