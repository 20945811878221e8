//! Patches of a tagged PLC: the maximal sets of coplanar facets with equal
//! tags that are connected across shared edges, found by union-find.
use crate::cvt::tri_side;
use crate::fxmap::{fx_empty, fx_get, fx_insert, fx_keys};
use rustc_hash::FxHashMap;
use vstd::prelude::*;

verus! {

broadcast use vstd::array::group_array_axioms;

/// The set `x` is closed under the links: each link has both ends in `x`
/// or neither.
pub open spec fn closed_under(links: Set<(int, int)>, x: Set<int>) -> bool {
    forall|a: int, b: int| #[trigger] links.contains((a, b)) ==> (x.contains(a) <==> x.contains(b))
}

/// `i` and `j` are joined by a chain of links: every link-closed set that
/// holds `i` holds `j`.
pub open spec fn joined(links: Set<(int, int)>, i: int, j: int) -> bool {
    forall|x: Set<int>| closed_under(links, x) && x.contains(i) ==> #[trigger] x.contains(j)
}

/// What `i` is joined to.
pub open spec fn component(links: Set<(int, int)>, i: int) -> Set<int> {
    Set::new(|j: int| joined(links, i, j))
}

proof fn lemma_component_closed(links: Set<(int, int)>, i: int)
    ensures
        closed_under(links, component(links, i)),
        component(links, i).contains(i),
{
    let c = component(links, i);
    assert forall|a: int, b: int| #[trigger] links.contains((a, b)) implies (c.contains(a) <==> c.contains(b)) by {
        if c.contains(a) {
            assert forall|x: Set<int>| closed_under(links, x) && x.contains(i) implies #[trigger] x.contains(b) by {
                assert(x.contains(a));
            }
        }
        if c.contains(b) {
            assert forall|x: Set<int>| closed_under(links, x) && x.contains(i) implies #[trigger] x.contains(a) by {
                assert(x.contains(b));
            }
        }
    }
}

proof fn lemma_closed_fewer_links(links: Set<(int, int)>, more: Set<(int, int)>, x: Set<int>)
    requires
        links.subset_of(more),
        closed_under(more, x),
    ensures
        closed_under(links, x),
{
    assert forall|a: int, b: int| #[trigger] links.contains((a, b)) implies (x.contains(a) <==> x.contains(b)) by {
        assert(more.contains((a, b)));
    }
}

/// Adding the link `(a, b)` joins exactly what was joined, plus what is
/// joined to one end to what the other end is joined to.
proof fn lemma_add_link(links: Set<(int, int)>, a: int, b: int, x: int, y: int)
    ensures
        joined(links.insert((a, b)), x, y) <==> (joined(links, x, y) || (joined(links, x, a) && joined(links, b, y))
            || (joined(links, x, b) && joined(links, a, y))),
{
    let l2 = links.insert((a, b));
    if joined(links, x, y) {
        assert forall|s: Set<int>| closed_under(l2, s) && s.contains(x) implies #[trigger] s.contains(y) by {
            lemma_closed_fewer_links(links, l2, s);
        }
    }
    if joined(links, x, a) && joined(links, b, y) {
        assert forall|s: Set<int>| closed_under(l2, s) && s.contains(x) implies #[trigger] s.contains(y) by {
            lemma_closed_fewer_links(links, l2, s);
            assert(s.contains(a));
            assert(l2.contains((a, b)));
            assert(s.contains(b));
        }
    }
    if joined(links, x, b) && joined(links, a, y) {
        assert forall|s: Set<int>| closed_under(l2, s) && s.contains(x) implies #[trigger] s.contains(y) by {
            lemma_closed_fewer_links(links, l2, s);
            assert(s.contains(b));
            assert(l2.contains((a, b)));
            assert(s.contains(a));
        }
    }
    if !joined(links, x, y) && !(joined(links, x, a) && joined(links, b, y)) && !(joined(links, x, b) && joined(
        links,
        a,
        y,
    )) {
        lemma_component_closed(links, x);
        let cx = component(links, x);
        let s = if joined(links, x, a) {
            lemma_component_closed(links, b);
            cx.union(component(links, b))
        } else if joined(links, x, b) {
            lemma_component_closed(links, a);
            cx.union(component(links, a))
        } else {
            cx
        };
        assert(closed_under(l2, s)) by {
            assert forall|c: int, d: int| #[trigger] l2.contains((c, d)) implies (s.contains(c) <==> s.contains(d)) by {
                if links.contains((c, d)) {
                    if joined(links, x, a) {
                        lemma_component_closed(links, b);
                        assert(closed_under(links, component(links, b)));
                    } else if joined(links, x, b) {
                        lemma_component_closed(links, a);
                        assert(closed_under(links, component(links, a)));
                    }
                } else {
                    assert(c == a && d == b);
                    if joined(links, x, a) {
                        lemma_component_closed(links, b);
                        assert(s.contains(a));
                        assert(s.contains(b));
                    } else if joined(links, x, b) {
                        lemma_component_closed(links, a);
                        assert(s.contains(a));
                        assert(s.contains(b));
                    } else {
                        assert(!cx.contains(a));
                        assert(!cx.contains(b));
                    }
                }
            }
        }
        assert(s.contains(x));
        assert(!s.contains(y));
    }
}


/// A union-find forest over `0..n`: every element reaches its
/// representative `rep` by parent steps that climb strictly in `level`.
pub open spec fn uf_wf(parent: Seq<usize>, level: Seq<int>, rep: Seq<int>) -> bool {
    &&& level.len() == parent.len()
    &&& rep.len() == parent.len()
    &&& forall|i: int| 0 <= i < parent.len() ==> (#[trigger] parent[i]) < parent.len()
    &&& forall|i: int| 0 <= i < parent.len() ==> 0 <= #[trigger] rep[i] < parent.len()
    &&& forall|i: int| 0 <= i < parent.len() ==> parent[#[trigger] rep[i]] == rep[i]
    &&& forall|i: int| 0 <= i < parent.len() && #[trigger] parent[i] == i ==> rep[i] == i
    &&& forall|i: int| 0 <= i < parent.len() ==> rep[#[trigger] parent[i] as int] == rep[i]
    &&& forall|i: int| 0 <= i < parent.len() && #[trigger] parent[i] != i ==> level[parent[i] as int] > level[i]
    &&& forall|i: int| 0 <= i < parent.len() && #[trigger] rep[i] != i ==> level[rep[i]] > level[i]
}

/// The representative of `i`, compressing its path to the root.
fn uf_find(parent: &mut Vec<usize>, i: usize, Ghost(level): Ghost<Seq<int>>, Ghost(rep): Ghost<Seq<int>>) -> (r: usize)
    requires
        uf_wf(old(parent)@, level, rep),
        i < old(parent)@.len(),
    ensures
        uf_wf(final(parent)@, level, rep),
        final(parent)@.len() == old(parent)@.len(),
        r == rep[i as int],
{
    let mut cur = i;
    while parent[cur] != cur
        invariant
            uf_wf(parent@, level, rep),
            cur < parent@.len(),
            i < parent@.len(),
            rep[cur as int] == rep[i as int],
        decreases level[rep[i as int]] - level[cur as int],
    {
        cur = parent[cur];
    }
    let root = cur;
    let ghost len0 = parent@.len();
    let mut x = i;
    while parent[x] != root
        invariant
            uf_wf(parent@, level, rep),
            parent@.len() == len0,
            x < parent@.len(),
            root < parent@.len(),
            root == rep[i as int],
            rep[x as int] == root,
        decreases level[root as int] - level[x as int],
    {
        let next = parent[x];
        let ghost before = parent@;
        parent.set(x, root);
        proof {
            assert(x != root);
            assert(before[x as int] != x);
            assert forall|k: int| 0 <= k < parent@.len() && #[trigger] parent@[k] == k implies rep[k] == k by {
                if k != x {
                    assert(before[k] == k);
                }
            }
            assert forall|k: int| 0 <= k < parent@.len() implies parent@[#[trigger] rep[k]] == rep[k] by {
                assert(before[rep[k]] == rep[k]);
                assert(rep[k] != x);
            }
        }
        x = next;
    }
    root
}

/// Linking root `ra` under root `rb` keeps a forest whose representatives
/// are the old ones with `ra`'s set moved to `rb`.
proof fn lemma_union_wf(parent: Seq<usize>, level: Seq<int>, rep: Seq<int>, ra: int, rb: int)
    requires
        uf_wf(parent, level, rep),
        0 <= ra < parent.len(),
        0 <= rb < parent.len(),
        ra != rb,
        parent[ra] == ra,
        parent[rb] == rb,
    ensures
        uf_wf(
            parent.update(ra, rb as usize),
            level.update(rb, if level[rb] > level[ra] { level[rb] } else { level[ra] + 1 }),
            Seq::new(rep.len(), |x: int| if rep[x] == ra { rb } else { rep[x] }),
        ),
{
    let p2 = parent.update(ra, rb as usize);
    let l2 = level.update(rb, if level[rb] > level[ra] { level[rb] } else { level[ra] + 1 });
    let r2 = Seq::new(rep.len(), |x: int| if rep[x] == ra { rb } else { rep[x] });
    assert(rep[ra] == ra && rep[rb] == rb);
    assert forall|i: int| 0 <= i < p2.len() implies p2[#[trigger] r2[i]] == r2[i] by {
        if rep[i] != ra {
            assert(parent[rep[i]] == rep[i]);
        }
    }
    assert forall|i: int| 0 <= i < p2.len() && #[trigger] p2[i] == i implies r2[i] == i by {
        assert(i != ra);
        assert(parent[i] == i);
    }
    assert forall|i: int| 0 <= i < p2.len() implies r2[#[trigger] p2[i] as int] == r2[i] by {
        if i != ra {
            assert(rep[parent[i] as int] == rep[i]);
        }
    }
    assert forall|i: int| 0 <= i < p2.len() && #[trigger] p2[i] != i implies l2[p2[i] as int] > l2[i] by {
        if i != ra {
            assert(parent[i] != i);
            assert(level[parent[i] as int] > level[i]);
            assert(i != rb);
        }
    }
    assert forall|i: int| 0 <= i < p2.len() && #[trigger] r2[i] != i implies l2[r2[i]] > l2[i] by {
        if rep[i] == ra {
            assert(i != rb);
            if i != ra {
                assert(level[ra] > level[i]);
            }
        } else {
            assert(rep[i] != i);
            assert(level[rep[i]] > level[i]);
            assert(i != rb);
        }
    }
}


/// The facets along undirected edge `e` among the first `j` facet sides
/// (side `j` is side `j % 3` of facet `j / 3`), once per side, in order.
pub open spec fn owners_upto(tris: Seq<[u32; 3]>, e: [usize; 2], j: int) -> Seq<usize>
    decreases j,
{
    if j <= 0 {
        Seq::empty()
    } else {
        let prev = owners_upto(tris, e, j - 1);
        if tri_side(tris[(j - 1) / 3], (j - 1) % 3) == e {
            prev.push(((j - 1) / 3) as usize)
        } else {
            prev
        }
    }
}

/// The facets along undirected edge `e`, in facet order.
pub open spec fn edge_owners(tris: Seq<[u32; 3]>, e: [usize; 2]) -> Seq<usize> {
    owners_upto(tris, e, 3 * tris.len() as int)
}

/// Buckets the facets by undirected edge: for each edge key with an owner,
/// its owners in facet order.
fn edge_owner_buckets(tris: &[[u32; 3]]) -> (r: (FxHashMap<[usize; 2], usize>, Vec<Vec<usize>>))
    requires
        3 * tris@.len() <= usize::MAX,
    ensures
        forall|e: [usize; 2]| #[trigger] r.0@.contains_key(e) <==> edge_owners(tris@, e).len() > 0,
        forall|e: [usize; 2]|
            #[trigger] r.0@.contains_key(e) ==> r.0@[e] < r.1@.len() && r.1@[r.0@[e] as int]@ == edge_owners(tris@, e),
{
    let n = tris.len();
    let mut index: FxHashMap<[usize; 2], usize> = fx_empty();
    let mut buckets: Vec<Vec<usize>> = Vec::new();
    let mut t: usize = 0;
    while t < n
        invariant
            n == tris@.len(),
            3 * n <= usize::MAX,
            t <= n,
            forall|e: [usize; 2]| #[trigger] index@.contains_key(e) <==> owners_upto(tris@, e, 3 * t).len() > 0,
            forall|e: [usize; 2]|
                #[trigger] index@.contains_key(e) ==> index@[e] < buckets@.len() && buckets@[index@[e] as int]@
                    == owners_upto(tris@, e, 3 * t),
            forall|e: [usize; 2], g: [usize; 2]|
                #[trigger] index@.contains_key(e) && #[trigger] index@.contains_key(g) && e != g ==> index@[e] != index@[g],
        decreases n - t,
    {
        let c = tris[t];
        let mut k: usize = 0;
        while k < 3
            invariant
                n == tris@.len(),
                3 * n <= usize::MAX,
                t < n,
                k <= 3,
                c == tris@[t as int],
                forall|e: [usize; 2]| #[trigger] index@.contains_key(e) <==> owners_upto(tris@, e, 3 * t + k).len() > 0,
                forall|e: [usize; 2]|
                    #[trigger] index@.contains_key(e) ==> index@[e] < buckets@.len() && buckets@[index@[e] as int]@
                        == owners_upto(tris@, e, 3 * t + k),
                forall|e: [usize; 2], g: [usize; 2]|
                    #[trigger] index@.contains_key(e) && #[trigger] index@.contains_key(g) && e != g ==> index@[e]
                        != index@[g],
            decreases 3 - k,
        {
            let a = c[k] as usize;
            let b = c[if k == 2 {
                0
            } else {
                k + 1
            }] as usize;
            let key = if a <= b {
                [a, b]
            } else {
                [b, a]
            };
            let ghost j: int = 3 * t + k;
            proof {
                assert(j / 3 == t && j % 3 == k);
                assert((k as int + 1) % 3 == if k == 2 { 0int } else { k as int + 1 });
                assert(key == tri_side(tris@[t as int], k as int));
                assert forall|e: [usize; 2]| #[trigger] owners_upto(tris@, e, j + 1) == if e == key {
                    owners_upto(tris@, e, j).push(t)
                } else {
                    owners_upto(tris@, e, j)
                } by {}
            }
            let ghost old_index = index@;
            let ghost old_buckets = buckets@;
            match fx_get(&index, &key) {
                Some(id) => {
                    buckets[id].push(t);
                    proof {
                        assert forall|e: [usize; 2]| #[trigger] index@.contains_key(e) implies index@[e] < buckets@.len()
                            && buckets@[index@[e] as int]@ == owners_upto(tris@, e, j + 1) by {
                            if e != key {
                                assert(index@[e] != id);
                                assert(buckets@[index@[e] as int] == old_buckets[index@[e] as int]);
                            }
                        }
                        assert forall|e: [usize; 2]| #[trigger] index@.contains_key(e) <==> owners_upto(tris@, e, j + 1).len()
                            > 0 by {}
                    }
                },
                None => {
                    let id = buckets.len();
                    fx_insert(&mut index, key, id);
                    let mut fresh: Vec<usize> = Vec::new();
                    fresh.push(t);
                    buckets.push(fresh);
                    proof {
                        assert(owners_upto(tris@, key, j).len() == 0);
                        assert(owners_upto(tris@, key, j) =~= Seq::<usize>::empty());
                        assert forall|e: [usize; 2]| #[trigger] index@.contains_key(e) implies index@[e] < buckets@.len()
                            && buckets@[index@[e] as int]@ == owners_upto(tris@, e, j + 1) by {
                            if e != key {
                                assert(old_index.contains_key(e));
                                assert(buckets@[index@[e] as int] == old_buckets[index@[e] as int]);
                            } else {
                                assert(buckets@[id as int]@ =~= seq![t]);
                                assert(owners_upto(tris@, e, j + 1) =~= seq![t]);
                            }
                        }
                        assert forall|e: [usize; 2]| #[trigger] index@.contains_key(e) <==> owners_upto(tris@, e, j + 1).len()
                            > 0 by {}
                    }
                },
            }
            k += 1;
        }
        t += 1;
    }
    (index, buckets)
}


/// What the coplanarity oracle `cop` answers for facets `a` and `b`.
pub open spec fn coplanar_by<C: Fn(usize, usize) -> bool>(cop: C, a: usize, b: usize) -> bool {
    choose|r: bool| call_ensures(cop, (a, b), r)
}

/// `cop` answers every facet pair, always the same way.
pub open spec fn is_coplanar_oracle<C: Fn(usize, usize) -> bool>(cop: C) -> bool {
    &&& forall|a: usize, b: usize| #[trigger] call_requires(cop, (a, b))
    &&& forall|a: usize, b: usize, r: bool, q: bool|
        #[trigger] call_ensures(cop, (a, b), r) && #[trigger] call_ensures(cop, (a, b), q) ==> r == q
}

fn coplanar_of<C: Fn(usize, usize) -> bool>(cop: &C, a: usize, b: usize) -> (r: bool)
    requires
        is_coplanar_oracle(*cop),
    ensures
        r == coplanar_by(*cop, a, b),
{
    cop(a, b)
}

/// Facets `a` and `b` may share a patch: equal face tags, equal region
/// tags, and coplanar.
pub open spec fn mergeable<C: Fn(usize, usize) -> bool>(
    face_tags: Seq<u32>,
    region_tags: Seq<[u32; 2]>,
    cop: C,
    a: usize,
    b: usize,
) -> bool {
    face_tags[a as int] == face_tags[b as int] && region_tags[a as int] == region_tags[b as int] && coplanar_by(cop, a, b)
}

/// Facets joined by patch links carry equal face tags and equal region tag
/// pairs, front and back: the tags never change within a patch, so facets
/// bounding different regions are never in one patch.
pub proof fn lemma_joined_same_tags<C: Fn(usize, usize) -> bool>(
    tris: Seq<[u32; 3]>,
    face_tags: Seq<u32>,
    region_tags: Seq<[u32; 2]>,
    cop: C,
    i: int,
    j: int,
)
    requires
        joined(patch_links(tris, face_tags, region_tags, cop), i, j),
    ensures
        face_tags[i] == face_tags[j],
        region_tags[i][0] == region_tags[j][0],
        region_tags[i][1] == region_tags[j][1],
{
    let links = patch_links(tris, face_tags, region_tags, cop);
    let x = Set::new(|k: int| face_tags[k] == face_tags[i] && region_tags[k] == region_tags[i]);
    assert(closed_under(links, x)) by {
        assert forall|a: int, b: int| #[trigger] links.contains((a, b)) implies (x.contains(a) <==> x.contains(b)) by {
            assert(patch_link(tris, face_tags, region_tags, cop, a, b));
            let (e, m) = choose|e: [usize; 2], m: int|
                0 <= m && m + 1 < edge_owners(tris, e).len() && #[trigger] edge_owners(tris, e)[m] == a && edge_owners(
                    tris,
                    e,
                )[m + 1] == b && mergeable(face_tags, region_tags, cop, a as usize, b as usize);
            assert((a as usize) as int == a);
            assert((b as usize) as int == b);
        }
    }
    assert(x.contains(i));
    assert(x.contains(j));
}

/// Facets `a` and `b` follow each other among the owners of some edge and
/// may share a patch.
pub open spec fn patch_link<C: Fn(usize, usize) -> bool>(
    tris: Seq<[u32; 3]>,
    face_tags: Seq<u32>,
    region_tags: Seq<[u32; 2]>,
    cop: C,
    a: int,
    b: int,
) -> bool {
    exists|e: [usize; 2], m: int|
        0 <= m && m + 1 < edge_owners(tris, e).len() && #[trigger] edge_owners(tris, e)[m] == a && edge_owners(tris, e)[m
            + 1] == b && mergeable(face_tags, region_tags, cop, a as usize, b as usize)
}

/// The links of the patch graph.
pub open spec fn patch_links<C: Fn(usize, usize) -> bool>(
    tris: Seq<[u32; 3]>,
    face_tags: Seq<u32>,
    region_tags: Seq<[u32; 2]>,
    cop: C,
) -> Set<(int, int)> {
    Set::new(|p: (int, int)| patch_link(tris, face_tags, region_tags, cop, p.0, p.1))
}

/// Facet `i` is a member of one of the patches.
pub open spec fn in_some_patch(patches: Seq<Seq<usize>>, i: int) -> bool {
    exists|g: int, k: int| 0 <= g < patches.len() && 0 <= k < patches[g].len() && #[trigger] patches[g][k] == i
}

/// `patches` partitions the facets `0..n` into the classes of `links`: each
/// patch non-empty and ascending, the patches ordered by first member, and
/// two facets in one patch exactly when joined by links.
pub open spec fn partitions(patches: Seq<Seq<usize>>, n: int, links: Set<(int, int)>) -> bool {
    &&& forall|g: int| 0 <= g < patches.len() ==> (#[trigger] patches[g]).len() > 0
    &&& forall|g: int, k: int| 0 <= g < patches.len() && 0 <= k < patches[g].len() ==> (#[trigger] patches[g][k]) < n
    &&& forall|g: int, k: int, m: int|
        0 <= g < patches.len() && 0 <= k < m < patches[g].len() ==> #[trigger] patches[g][k] < #[trigger] patches[g][m]
    &&& forall|g: int, h: int| 0 <= g < h < patches.len() ==> #[trigger] patches[g][0] < #[trigger] patches[h][0]
    &&& forall|i: int| 0 <= i < n ==> #[trigger] in_some_patch(patches, i)
    &&& forall|g: int, h: int, k: int, m: int|
        0 <= g < patches.len() && 0 <= h < patches.len() && 0 <= k < patches[g].len() && 0 <= m < patches[h].len()
            ==> (joined(links, #[trigger] patches[g][k] as int, #[trigger] patches[h][m] as int) <==> g == h)
}

/// The members of each patch, as plain sequences.
pub open spec fn member_views(p: Seq<Vec<usize>>) -> Seq<Seq<usize>> {
    p.map_values(|v: Vec<usize>| v@)
}

proof fn lemma_nothing_joined(i: int, j: int)
    ensures
        joined(Set::<(int, int)>::empty(), i, j) <==> i == j,
{
    if joined(Set::<(int, int)>::empty(), i, j) {
        let x = Set::<int>::empty().insert(i);
        assert(closed_under(Set::<(int, int)>::empty(), x));
        assert(x.contains(i));
        assert(x.contains(j));
    }
}


/// Merges the classes of facets `a` and `b` (the link `(a, b)`), keeping
/// the forest's representatives equal to the classes of the links.
fn union_pair(
    parent: &mut Vec<usize>,
    a: usize,
    b: usize,
    Ghost(level): Ghost<Seq<int>>,
    Ghost(rep): Ghost<Seq<int>>,
    Ghost(links): Ghost<Set<(int, int)>>,
) -> (out: Ghost<(Seq<int>, Seq<int>)>)
    requires
        uf_wf(old(parent)@, level, rep),
        a < old(parent)@.len(),
        b < old(parent)@.len(),
        forall|i: int, j: int|
            0 <= i < old(parent)@.len() && 0 <= j < old(parent)@.len() ==> (rep[i] == rep[j] <==> joined(links, i, j)),
    ensures
        final(parent)@.len() == old(parent)@.len(),
        uf_wf(final(parent)@, out@.0, out@.1),
        forall|i: int, j: int|
            0 <= i < old(parent)@.len() && 0 <= j < old(parent)@.len() ==> (out@.1[i] == out@.1[j] <==> joined(
                links.insert((a as int, b as int)),
                i,
                j,
            )),
{
    let ghost n = parent@.len();
    let ra = uf_find(parent, a, Ghost(level), Ghost(rep));
    let rb = uf_find(parent, b, Ghost(level), Ghost(rep));
    let ghost mut level2 = level;
    let ghost mut rep2 = rep;
    if ra != rb {
        proof {
            lemma_union_wf(parent@, level, rep, ra as int, rb as int);
        }
        parent.set(ra, rb);
        proof {
            level2 = level.update(rb as int, if level[rb as int] > level[ra as int] {
                level[rb as int]
            } else {
                level[ra as int] + 1
            });
            rep2 = Seq::new(rep.len(), |x: int| if rep[x] == ra { rb as int } else { rep[x] });
        }
    }
    proof {
        assert forall|i: int, j: int| 0 <= i < n && 0 <= j < n implies (rep2[i] == rep2[j] <==> joined(
            links.insert((a as int, b as int)),
            i,
            j,
        )) by {
            lemma_add_link(links, a as int, b as int, i, j);
            assert(rep[i] == rep[a as int] <==> joined(links, i, a as int));
            assert(rep[b as int] == rep[j] <==> joined(links, b as int, j));
            assert(rep[i] == rep[b as int] <==> joined(links, i, b as int));
            assert(rep[a as int] == rep[j] <==> joined(links, a as int, j));
        }
    }
    Ghost((level2, rep2))
}

/// `p` is a pair of consecutive mergeable facets of the owner list `own`.
pub open spec fn owner_pair<C: Fn(usize, usize) -> bool>(
    own: Seq<usize>,
    face_tags: Seq<u32>,
    region_tags: Seq<[u32; 2]>,
    cop: C,
    p: (int, int),
) -> bool {
    exists|m: int|
        0 <= m && m + 1 < own.len() && #[trigger] own[m] == p.0 && own[m + 1] == p.1 && mergeable(
            face_tags,
            region_tags,
            cop,
            p.0 as usize,
            p.1 as usize,
        )
}

/// The classes of the forest are those of the links.
pub open spec fn classes_are(rep: Seq<int>, n: int, links: Set<(int, int)>) -> bool {
    forall|i: int, j: int| 0 <= i < n && 0 <= j < n ==> (rep[i] == rep[j] <==> joined(links, i, j))
}

/// Links every consecutive mergeable pair of the owners of one edge.
#[verifier::rlimit(50)]
fn link_owners<C: Fn(usize, usize) -> bool>(
    parent: &mut Vec<usize>,
    owners: &Vec<usize>,
    face_tags: &[u32],
    region_tags: &[[u32; 2]],
    coplanar: &C,
    Ghost(level): Ghost<Seq<int>>,
    Ghost(rep): Ghost<Seq<int>>,
    Ghost(links): Ghost<Set<(int, int)>>,
) -> (out: Ghost<(Seq<int>, Seq<int>, Set<(int, int)>)>)
    requires
        uf_wf(old(parent)@, level, rep),
        face_tags@.len() == old(parent)@.len(),
        region_tags@.len() == old(parent)@.len(),
        is_coplanar_oracle(*coplanar),
        forall|m: int| 0 <= m < owners@.len() ==> (#[trigger] owners@[m]) < old(parent)@.len(),
        classes_are(rep, old(parent)@.len() as int, links),
    ensures
        final(parent)@.len() == old(parent)@.len(),
        uf_wf(final(parent)@, out@.0, out@.1),
        classes_are(out@.1, old(parent)@.len() as int, out@.2),
        forall|p: (int, int)|
            #[trigger] out@.2.contains(p) <==> links.contains(p) || owner_pair(owners@, face_tags@, region_tags@, *coplanar, p),
{
    let ghost n = parent@.len();
    let ghost ft = face_tags@;
    let ghost rt = region_tags@;
    let ghost cop = *coplanar;
    let ghost own = owners@;
    let ghost mut level2 = level;
    let ghost mut rep2 = rep;
    let ghost mut links2 = links;
    let mut w: usize = 0;
    while w < owners.len()
        invariant
            n == parent@.len(),
            ft == face_tags@,
            rt == region_tags@,
            cop == *coplanar,
            own == owners@,
            ft.len() == n,
            rt.len() == n,
            is_coplanar_oracle(cop),
            forall|m: int| 0 <= m < own.len() ==> (#[trigger] own[m]) < n,
            w <= own.len(),
            uf_wf(parent@, level2, rep2),
            classes_are(rep2, n as int, links2),
            forall|p: (int, int)|
                #[trigger] links2.contains(p) ==> links.contains(p) || owner_pair(own, ft, rt, cop, p),
            forall|p: (int, int)| #[trigger] links.contains(p) ==> links2.contains(p),
            forall|m: int|
                0 <= m < w && m + 1 < own.len() && mergeable(ft, rt, cop, #[trigger] own[m], own[m + 1]) ==> links2.contains(
                    (own[m] as int, own[m + 1] as int),
                ),
        decreases own.len() - w,
    {
        if w + 1 < owners.len() {
            let a = owners[w];
            let b = owners[w + 1];
            if face_tags[a] == face_tags[b] && region_tags[a][0] == region_tags[b][0] && region_tags[a][1]
                == region_tags[b][1] && coplanar_of(coplanar, a, b) {
                proof {
                    assert(region_tags@[a as int] =~= region_tags@[b as int]);
                    assert(mergeable(ft, rt, cop, a, b));
                    assert(owner_pair(own, ft, rt, cop, (a as int, b as int))) by {
                        assert(own[w as int] == a);
                    }
                }
                let ghost old_links = links2;
                let out = union_pair(parent, a, b, Ghost(level2), Ghost(rep2), Ghost(links2));
                proof {
                    level2 = out@.0;
                    rep2 = out@.1;
                    links2 = old_links.insert((a as int, b as int));
                }
            }
        }
        w += 1;
    }
    proof {
        assert forall|p: (int, int)| #[trigger] links2.contains(p) <==> links.contains(p) || owner_pair(own, ft, rt, cop, p) by {
            if owner_pair(own, ft, rt, cop, p) {
                let m = choose|m: int|
                    0 <= m && m + 1 < own.len() && #[trigger] own[m] == p.0 && own[m + 1] == p.1 && mergeable(
                        ft,
                        rt,
                        cop,
                        p.0 as usize,
                        p.1 as usize,
                    );
                assert(mergeable(ft, rt, cop, own[m], own[m + 1]));
            }
        }
    }
    Ghost((level2, rep2, links2))
}

/// Union-find over all edges: the classes of the returned forest are those
/// of the patch links.
#[verifier::rlimit(50)]
fn link_all<C: Fn(usize, usize) -> bool>(
    triangles: &[[u32; 3]],
    face_tags: &[u32],
    region_tags: &[[u32; 2]],
    coplanar: &C,
) -> (r: (Vec<usize>, Ghost<(Seq<int>, Seq<int>)>))
    requires
        face_tags@.len() == triangles@.len(),
        region_tags@.len() == triangles@.len(),
        is_coplanar_oracle(*coplanar),
        3 * triangles@.len() <= usize::MAX,
    ensures
        r.0@.len() == triangles@.len(),
        uf_wf(r.0@, r.1@.0, r.1@.1),
        classes_are(r.1@.1, triangles@.len() as int, patch_links(triangles@, face_tags@, region_tags@, *coplanar)),
{
    let ghost tris = triangles@;
    let ghost ft = face_tags@;
    let ghost rt = region_tags@;
    let ghost cop = *coplanar;
    let n = triangles.len();
    let (index, buckets) = edge_owner_buckets(triangles);
    let mut parent: Vec<usize> = Vec::new();
    while parent.len() < n
        invariant
            parent@.len() <= n,
            forall|i: int| 0 <= i < parent@.len() ==> #[trigger] parent@[i] == i,
        decreases n - parent@.len(),
    {
        let k = parent.len();
        parent.push(k);
    }
    let ghost mut level: Seq<int> = Seq::new(n as nat, |i: int| 0int);
    let ghost mut rep: Seq<int> = Seq::new(n as nat, |i: int| i);
    let ghost mut links: Set<(int, int)> = Set::empty();
    proof {
        assert forall|i: int, j: int| 0 <= i < n && 0 <= j < n implies (rep[i] == rep[j] <==> joined(links, i, j)) by {
            lemma_nothing_joined(i, j);
        }
    }
    let keys = fx_keys(&index);
    let mut kk: usize = 0;
    while kk < keys.len()
        invariant
            n == tris.len(),
            tris == triangles@,
            ft == face_tags@,
            rt == region_tags@,
            cop == *coplanar,
            ft.len() == n,
            rt.len() == n,
            is_coplanar_oracle(cop),
            forall|e: [usize; 2]| #[trigger] index@.contains_key(e) <==> edge_owners(tris, e).len() > 0,
            forall|e: [usize; 2]|
                #[trigger] index@.contains_key(e) ==> index@[e] < buckets@.len() && buckets@[index@[e] as int]@ == edge_owners(tris, e),
            keys@.to_set() == index@.dom(),
            kk <= keys@.len(),
            parent@.len() == n,
            uf_wf(parent@, level, rep),
            classes_are(rep, n as int, links),
            forall|p: (int, int)| #[trigger] links.contains(p) ==> patch_link(tris, ft, rt, cop, p.0, p.1),
            forall|k: int, p: (int, int)|
                0 <= k < kk && #[trigger] owner_pair(edge_owners(tris, keys@[k]), ft, rt, cop, p) ==> links.contains(p),
        decreases keys@.len() - kk,
    {
        let key = keys[kk];
        proof {
            assert(keys@.to_set().contains(key));
        }
        let id = match fx_get(&index, &key) {
            Some(id) => id,
            None => 0,
        };
        let owners = &buckets[id];
        let ghost own = edge_owners(tris, key);
        proof {
            assert(owners@ == own);
            assert forall|m: int| 0 <= m < own.len() implies (#[trigger] own[m]) < n by {
                lemma_owner_bound(tris, key, 3 * n as int, m);
            }
        }
        let ghost old_links = links;
        let out = link_owners(&mut parent, owners, face_tags, region_tags, coplanar, Ghost(level), Ghost(rep), Ghost(links));
        proof {
            level = out@.0;
            rep = out@.1;
            links = out@.2;
            assert forall|p: (int, int)| #[trigger] links.contains(p) implies patch_link(tris, ft, rt, cop, p.0, p.1) by {
                if !old_links.contains(p) {
                    assert(owner_pair(own, ft, rt, cop, p));
                    let m = choose|m: int|
                        0 <= m && m + 1 < own.len() && #[trigger] own[m] == p.0 && own[m + 1] == p.1 && mergeable(
                            ft,
                            rt,
                            cop,
                            p.0 as usize,
                            p.1 as usize,
                        );
                    assert(edge_owners(tris, key)[m] == p.0);
                }
            }
            assert forall|k: int, p: (int, int)|
                0 <= k < kk + 1 && #[trigger] owner_pair(edge_owners(tris, keys@[k]), ft, rt, cop, p) implies links.contains(p) by {
                if k < kk {
                    assert(old_links.contains(p));
                }
            }
        }
        kk += 1;
    }
    proof {
        let all = patch_links(tris, ft, rt, cop);
        assert(links =~= all) by {
            assert forall|p: (int, int)| all.contains(p) implies links.contains(p) by {
                let (e, m) = choose|e: [usize; 2], m: int|
                    0 <= m && m + 1 < edge_owners(tris, e).len() && #[trigger] edge_owners(tris, e)[m] == p.0
                        && edge_owners(tris, e)[m + 1] == p.1 && mergeable(ft, rt, cop, p.0 as usize, p.1 as usize);
                assert(index@.contains_key(e));
                assert(keys@.to_set().contains(e));
                let k = choose|k: int| 0 <= k < keys@.len() && keys@[k] == e;
                assert(edge_owners(tris, keys@[k])[m] == p.0);
                assert(owner_pair(edge_owners(tris, keys@[k]), ft, rt, cop, p));
            }
        }
    }
    (parent, Ghost((level, rep)))
}

/// Groups `0..n` by representative, in order of each group's first member.
#[verifier::rlimit(50)]
fn group_by_rep(parent: &mut Vec<usize>, Ghost(level): Ghost<Seq<int>>, Ghost(rep): Ghost<Seq<int>>) -> (patches: Vec<
    Vec<usize>,
>)
    requires
        uf_wf(old(parent)@, level, rep),
    ensures
        ({
            let pv = member_views(patches@);
            let n = old(parent)@.len() as int;
            &&& forall|g: int| 0 <= g < pv.len() ==> (#[trigger] pv[g]).len() > 0
            &&& forall|g: int, k: int| 0 <= g < pv.len() && 0 <= k < pv[g].len() ==> (#[trigger] pv[g][k]) < n
            &&& forall|g: int, k: int, m: int|
                0 <= g < pv.len() && 0 <= k < m < pv[g].len() ==> #[trigger] pv[g][k] < #[trigger] pv[g][m]
            &&& forall|g: int, h: int| 0 <= g < h < pv.len() ==> #[trigger] pv[g][0] < #[trigger] pv[h][0]
            &&& forall|i: int| 0 <= i < n ==> #[trigger] in_some_patch(pv, i)
            &&& forall|g: int, h: int, k: int, m: int|
                0 <= g < pv.len() && 0 <= h < pv.len() && 0 <= k < pv[g].len() && 0 <= m < pv[h].len() ==> (rep[
                    #[trigger] pv[g][k] as int] == rep[#[trigger] pv[h][m] as int] <==> g == h)
        }),
{
    let n = parent.len();
    let mut group_of: FxHashMap<usize, usize> = fx_empty();
    let mut patches: Vec<Vec<usize>> = Vec::new();
    let ghost mut groot: Seq<int> = Seq::empty();
    let mut i: usize = 0;
    while i < n
        invariant
            i <= n,
            parent@.len() == n,
            uf_wf(parent@, level, rep),
            groot.len() == patches@.len(),
            forall|r: usize|
                #[trigger] group_of@.contains_key(r) ==> group_of@[r] < patches@.len() && groot[group_of@[r] as int] == r,
            forall|g: int|
                0 <= g < patches@.len() ==> group_of@.contains_key(#[trigger] groot[g] as usize) && group_of@[groot[g] as usize]
                    == g && 0 <= groot[g] < n,
            forall|g: int| 0 <= g < patches@.len() ==> (#[trigger] patches@[g])@.len() > 0,
            forall|g: int, k: int|
                0 <= g < patches@.len() && 0 <= k < patches@[g]@.len() ==> (#[trigger] patches@[g]@[k]) < i && rep[patches@[g]@[k] as int]
                    == groot[g],
            forall|g: int, k: int, m: int|
                0 <= g < patches@.len() && 0 <= k < m < patches@[g]@.len() ==> #[trigger] patches@[g]@[k]
                    < #[trigger] patches@[g]@[m],
            forall|g: int, h: int| 0 <= g < h < patches@.len() ==> #[trigger] patches@[g]@[0] < #[trigger] patches@[h]@[0],
            forall|j: int| 0 <= j < i ==> #[trigger] in_some_patch(member_views(patches@), j),
        decreases n - i,
    {
        let r = uf_find(parent, i, Ghost(level), Ghost(rep));
        let ghost before = patches@;
        match fx_get(&group_of, &r) {
            Some(g) => {
                patches[g].push(i);
                proof {
                    assert(patches@[g as int]@ == before[g as int]@.push(i));
                    assert forall|h: int| 0 <= h < patches@.len() && h != g implies patches@[h] == before[h] by {}
                }
            },
            None => {
                let g = patches.len();
                fx_insert(&mut group_of, r, g);
                let mut fresh: Vec<usize> = Vec::new();
                fresh.push(i);
                patches.push(fresh);
                proof {
                    groot = groot.push(r as int);
                    assert(patches@[g as int]@ =~= seq![i]);
                    assert forall|h: int| 0 <= h < patches@.len() && h != g implies patches@[h] == before[h] by {}
                }
            },
        }
        proof {
            let pv = member_views(patches@);
            let bv = member_views(before);
            let gi = group_of@[r] as int;
            assert forall|h: int, k: int|
                0 <= h < patches@.len() && 0 <= k < patches@[h]@.len() implies (#[trigger] patches@[h]@[k]) < i + 1
                    && rep[patches@[h]@[k] as int] == groot[h] by {
                if h != gi {
                    assert(patches@[h] == before[h]);
                } else if patches@.len() == before.len() {
                    assert(patches@[h]@ == before[h]@.push(i));
                    if k < before[h]@.len() {
                        assert(patches@[h]@[k] == before[h]@[k]);
                    }
                } else {
                    assert(patches@[h]@ =~= seq![i]);
                }
            }
            assert forall|h: int, k: int, m: int|
                0 <= h < patches@.len() && 0 <= k < m < patches@[h]@.len() implies #[trigger] patches@[h]@[k]
                    < #[trigger] patches@[h]@[m] by {
                if h != gi {
                    assert(patches@[h] == before[h]);
                } else if patches@.len() != before.len() {
                    assert(patches@[h]@ =~= seq![i]);
                } else if m < before[h]@.len() {
                    assert(patches@[h]@[k] == before[h]@[k]);
                    assert(patches@[h]@[m] == before[h]@[m]);
                } else {
                    assert(patches@[h]@[m] == i);
                    if k < before[h]@.len() {
                        assert(patches@[h]@[k] == before[h]@[k]);
                    }
                }
            }
            assert forall|h1: int, h2: int| 0 <= h1 < h2 < patches@.len() implies #[trigger] patches@[h1]@[0]
                < #[trigger] patches@[h2]@[0] by {
                assert(patches@[h1]@[0] == before[h1]@[0]);
                if h2 < before.len() {
                    assert(patches@[h2]@[0] == before[h2]@[0]);
                } else {
                    assert(before[h1]@[0] < i);
                }
            }
            assert forall|j: int| 0 <= j < i + 1 implies #[trigger] in_some_patch(pv, j) by {
                if j == i {
                    let k = patches@[gi]@.len() - 1;
                    assert(pv[gi][k] == j);
                } else {
                    assert(in_some_patch(bv, j));
                    let (g2, k2) = choose|g2: int, k2: int| 0 <= g2 < bv.len() && 0 <= k2 < bv[g2].len() && #[trigger] bv[g2][k2] == j;
                    if g2 != gi {
                        assert(patches@[g2] == before[g2]);
                    }
                    assert(pv[g2][k2] == bv[g2][k2]);
                }
            }
        }
        i += 1;
    }
    proof {
        let pv = member_views(patches@);
        assert forall|g: int, h: int, k: int, m: int|
            0 <= g < pv.len() && 0 <= h < pv.len() && 0 <= k < pv[g].len() && 0 <= m < pv[h].len() implies (rep[
                #[trigger] pv[g][k] as int] == rep[#[trigger] pv[h][m] as int] <==> g == h) by {
            assert(rep[pv[g][k] as int] == groot[g]);
            assert(rep[pv[h][m] as int] == groot[h]);
            if groot[g] == groot[h] {
                assert(group_of@[groot[g] as usize] == g);
            }
        }
    }
    patches
}

/// Builds the maximal coplanar same-tag patches by union-find over facets
/// sharing an edge: two facets that follow each other among the owners of
/// an edge are merged when their face tags and region tags agree and the
/// oracle `coplanar` finds the second in the plane of the first. Each patch
/// lists its facets in ascending order; patches come in order of their
/// smallest facet.
pub fn build_patches<C: Fn(usize, usize) -> bool>(
    triangles: &[[u32; 3]],
    face_tags: &[u32],
    region_tags: &[[u32; 2]],
    coplanar: &C,
) -> (patches: Vec<Vec<usize>>)
    requires
        face_tags@.len() == triangles@.len(),
        region_tags@.len() == triangles@.len(),
        is_coplanar_oracle(*coplanar),
        3 * triangles@.len() <= usize::MAX,
    ensures
        partitions(
            member_views(patches@),
            triangles@.len() as int,
            patch_links(triangles@, face_tags@, region_tags@, *coplanar),
        ),
        forall|g: int, k: int, m: int|
            0 <= g < patches@.len() && 0 <= k < patches@[g]@.len() && 0 <= m < patches@[g]@.len() ==> {
                let p = #[trigger] patches@[g]@[k] as int;
                let q = #[trigger] patches@[g]@[m] as int;
                &&& face_tags@[p] == face_tags@[q]
                &&& region_tags@[p][0] == region_tags@[q][0]
                &&& region_tags@[p][1] == region_tags@[q][1]
            },
        forall|e: [usize; 2], i: int, g: int, h: int, k: int, m: int|
            #![trigger patches@[g]@[k], patches@[h]@[m], edge_owners(triangles@, e)[i]]
            0 <= i && i + 1 < edge_owners(triangles@, e).len() && 0 <= g < patches@.len() && 0 <= h < patches@.len()
                && 0 <= k < patches@[g]@.len() && 0 <= m < patches@[h]@.len() && patches@[g]@[k]
                == edge_owners(triangles@, e)[i] && patches@[h]@[m] == edge_owners(triangles@, e)[i + 1]
                && face_tags@[edge_owners(triangles@, e)[i] as int] == face_tags@[edge_owners(triangles@, e)[i + 1] as int]
                && region_tags@[edge_owners(triangles@, e)[i] as int] == region_tags@[edge_owners(triangles@, e)[i
                + 1] as int] && coplanar_by(*coplanar, edge_owners(triangles@, e)[i], edge_owners(triangles@, e)[i + 1])
                ==> g == h,
{
    let (mut parent, uf) = link_all(triangles, face_tags, region_tags, coplanar);
    let ghost level = uf@.0;
    let ghost rep = uf@.1;
    let patches = group_by_rep(&mut parent, Ghost(level), Ghost(rep));
    proof {
        let pv = member_views(patches@);
        let all = patch_links(triangles@, face_tags@, region_tags@, *coplanar);
        assert forall|g: int, h: int, k: int, m: int|
            0 <= g < pv.len() && 0 <= h < pv.len() && 0 <= k < pv[g].len() && 0 <= m < pv[h].len() implies (joined(
                all,
                #[trigger] pv[g][k] as int,
                #[trigger] pv[h][m] as int,
            ) <==> g == h) by {
            assert(rep[pv[g][k] as int] == rep[pv[h][m] as int] <==> g == h);
        }
        assert forall|g: int, k: int, m: int|
            0 <= g < patches@.len() && 0 <= k < patches@[g]@.len() && 0 <= m < patches@[g]@.len() implies {
                let p = #[trigger] patches@[g]@[k] as int;
                let q = #[trigger] patches@[g]@[m] as int;
                &&& face_tags@[p] == face_tags@[q]
                &&& region_tags@[p][0] == region_tags@[q][0]
                &&& region_tags@[p][1] == region_tags@[q][1]
            } by {
            assert(pv[g] == patches@[g]@);
            assert(joined(all, pv[g][k] as int, pv[g][m] as int));
            lemma_joined_same_tags(triangles@, face_tags@, region_tags@, *coplanar, pv[g][k] as int, pv[g][m] as int);
        }
        assert forall|e: [usize; 2], i: int, g: int, h: int, k: int, m: int|
            #![trigger patches@[g]@[k], patches@[h]@[m], edge_owners(triangles@, e)[i]]
            0 <= i && i + 1 < edge_owners(triangles@, e).len() && 0 <= g < patches@.len() && 0 <= h < patches@.len()
                && 0 <= k < patches@[g]@.len() && 0 <= m < patches@[h]@.len() && patches@[g]@[k]
                == edge_owners(triangles@, e)[i] && patches@[h]@[m] == edge_owners(triangles@, e)[i + 1]
                && face_tags@[edge_owners(triangles@, e)[i] as int] == face_tags@[edge_owners(triangles@, e)[i + 1] as int]
                && region_tags@[edge_owners(triangles@, e)[i] as int] == region_tags@[edge_owners(triangles@, e)[i
                + 1] as int] && coplanar_by(*coplanar, edge_owners(triangles@, e)[i], edge_owners(triangles@, e)[i + 1])
                implies g == h by {
            let a = edge_owners(triangles@, e)[i];
            let b = edge_owners(triangles@, e)[i + 1];
            assert(mergeable(face_tags@, region_tags@, *coplanar, a, b));
            assert(patch_link(triangles@, face_tags@, region_tags@, *coplanar, a as int, b as int));
            assert(all.contains((a as int, b as int)));
            assert(joined(all, a as int, b as int)) by {
                assert forall|x: Set<int>| closed_under(all, x) && x.contains(a as int) implies #[trigger] x.contains(
                    b as int,
                ) by {
                    assert(all.contains((a as int, b as int)));
                }
            }
            assert(pv[g] == patches@[g]@);
            assert(pv[h] == patches@[h]@);
        }
    }
    patches
}

proof fn lemma_owner_bound(tris: Seq<[u32; 3]>, e: [usize; 2], j: int, m: int)
    requires
        0 <= j <= 3 * tris.len(),
        0 <= m < owners_upto(tris, e, j).len(),
    ensures
        owners_upto(tris, e, j)[m] < tris.len(),
    decreases j,
{
    if j > 0 {
        let prev = owners_upto(tris, e, j - 1);
        if m < prev.len() {
            lemma_owner_bound(tris, e, j - 1, m);
            if tri_side(tris[(j - 1) / 3], (j - 1) % 3) == e {
                assert(owners_upto(tris, e, j)[m] == prev[m]);
            }
        }
    }
}

} // verus!
