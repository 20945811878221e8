//! Tiles of the surface mesher: the boundary of a planar patch or a curved
//! smooth group, as the corner pairs used by exactly one of its facets.
use crate::ordering::{pair_lt, strictly_ascending, tally_usize_pairs};
use vstd::prelude::*;

verus! {

broadcast use vstd::array::group_array_axioms;

/// Undirected key `[min, max]` of side `k` (corner `k` to corner `k + 1`)
/// of a PLC triangle.
pub open spec fn tri_side(t: [u32; 3], k: int) -> [usize; 2] {
    let a = t[k] as usize;
    let b = t[(k + 1) % 3] as usize;
    if a <= b {
        [a, b]
    } else {
        [b, a]
    }
}

/// The sides of the member facets, three per member in member order.
pub open spec fn member_sides(tris: Seq<[u32; 3]>, members: Seq<usize>) -> Seq<[usize; 2]> {
    Seq::new(3 * members.len(), |j: int| tri_side(tris[members[j / 3] as int], j % 3))
}

/// Boundary edges of a tile (a planar patch or a curved smooth group):
/// the corner pairs appearing exactly once across its member facets
/// (interior facet seams appear twice), in ascending order.
pub fn group_boundary_edges(triangles: &[[u32; 3]], members: &[usize]) -> (out: Vec<[usize; 2]>)
    requires
        forall|j: int| 0 <= j < members@.len() ==> #[trigger] members@[j] < triangles@.len(),
        3 * members@.len() <= usize::MAX,
    ensures
        strictly_ascending(out@),
        forall|e: [usize; 2]|
            out@.contains(e) <==> member_sides(triangles@, members@).to_multiset().count(e) == 1,
{
    let ghost all = member_sides(triangles@, members@);
    let n = members.len();
    let mut sides: Vec<[usize; 2]> = Vec::new();
    let mut m: usize = 0;
    while m < n
        invariant
            n == members@.len(),
            all == member_sides(triangles@, members@),
            forall|j: int| 0 <= j < members@.len() ==> #[trigger] members@[j] < triangles@.len(),
            3 * n <= usize::MAX,
            m <= n,
            sides@ == all.take(3 * m),
        decreases n - m,
    {
        let c = triangles[members[m]];
        let mut k: usize = 0;
        while k < 3
            invariant
                n == members@.len(),
                all == member_sides(triangles@, members@),
                3 * n <= usize::MAX,
                m < n,
                k <= 3,
                c == triangles@[members@[m as int] as int],
                sides@ == all.take(3 * m + k),
            decreases 3 - k,
        {
            let a = c[k] as usize;
            let b = c[if k == 2 {
                0
            } else {
                k + 1
            }] as usize;
            let e = if a <= b {
                [a, b]
            } else {
                [b, a]
            };
            proof {
                let j = 3 * m + k;
                assert(j / 3 == m && j % 3 == k);
                assert((k as int + 1) % 3 == if k == 2 { 0int } else { k as int + 1 });
                assert(all[j] == tri_side(c, k as int));
                assert(all.take(j + 1) =~= all.take(j).push(e));
            }
            sides.push(e);
            k += 1;
        }
        m += 1;
    }
    proof {
        assert(all.take(3 * n as int) =~= all);
    }
    let (ks, cs) = tally_usize_pairs(&sides);
    let mut out: Vec<[usize; 2]> = Vec::new();
    let mut j: usize = 0;
    while j < ks.len()
        invariant
            sides@ == all,
            strictly_ascending(ks@),
            cs@.len() == ks@.len(),
            forall|e: [usize; 2]| ks@.contains(e) <==> sides@.contains(e),
            forall|i: int| 0 <= i < ks@.len() ==> #[trigger] cs@[i] == sides@.to_multiset().count(ks@[i]),
            j <= ks@.len(),
            strictly_ascending(out@),
            out@.len() > 0 ==> exists|i: int| 0 <= i < j && #[trigger] ks@[i] == out@.last(),
            forall|a: int| 0 <= a < out@.len() ==> sides@.to_multiset().count(#[trigger] out@[a]) == 1,
            forall|i: int| 0 <= i < j && cs@[i] == 1 ==> out@.contains(#[trigger] ks@[i]),
        decreases ks@.len() - j,
    {
        let e = ks[j];
        if cs[j] == 1 {
            let ghost before = out@;
            out.push(e);
            proof {
                if before.len() > 0 {
                    let i = choose|i: int| 0 <= i < j && #[trigger] ks@[i] == before.last();
                    assert(pair_lt(ks@[i], ks@[j as int]));
                }
                assert forall|a: int, b: int| 0 <= a < b < out@.len() implies pair_lt(
                    #[trigger] out@[a],
                    #[trigger] out@[b],
                ) by {
                    if b == before.len() && a < b - 1 {
                        assert(pair_lt(before[a], before[b - 1]));
                    }
                }
                assert forall|i: int| 0 <= i < j + 1 && cs@[i] == 1 implies out@.contains(#[trigger] ks@[i]) by {
                    if i < j {
                        let a = choose|a: int| 0 <= a < before.len() && before[a] == ks@[i];
                        assert(out@[a] == ks@[i]);
                    } else {
                        assert(out@[before.len() as int] == ks@[i]);
                    }
                }
                assert(ks@[j as int] == out@.last());
            }
        }
        j += 1;
    }
    proof {
        assert forall|e: [usize; 2]| out@.contains(e) <==> all.to_multiset().count(e) == 1 by {
            sides@.to_multiset_ensures();
            if out@.contains(e) {
                let a = choose|a: int| 0 <= a < out@.len() && out@[a] == e;
            }
            if all.to_multiset().count(e) == 1 {
                assert(sides@.contains(e));
                assert(ks@.contains(e));
                let i = choose|i: int| 0 <= i < ks@.len() && ks@[i] == e;
                assert(cs@[i] == 1);
            }
        }
    }
    out
}

} // verus!
