//! Local re-tetrahedralization moves of the quality optimizer: the three
//! tets of a 2-3 flip, the ring of vertices around an edge, and the tets
//! that replace the star of an edge given a triangulation of its ring.
use crate::recover::{is_orient_oracle, orient_of, orient_sign, Sign};
use vstd::prelude::*;

verus! {

broadcast use vstd::array::group_array_axioms;

/// `v` is an end of one of the pairs.
pub open spec fn is_endpoint(pairs: Seq<[usize; 2]>, v: usize) -> bool {
    exists|j: int, s: int| 0 <= j < pairs.len() && 0 <= s < 2 && #[trigger] pairs[j][s] == v
}

/// `{x, y}` is one of the pairs (in either order).
pub open spec fn is_pair(pairs: Seq<[usize; 2]>, x: usize, y: usize) -> bool {
    exists|j: int|
        0 <= j < pairs.len() && ((#[trigger] pairs[j][0] == x && pairs[j][1] == y) || (pairs[j][0] == y && pairs[j][1]
            == x))
}

/// `ring` walks the pairs as a closed cycle: one vertex per pair, starting
/// at the least endpoint, each two cyclically consecutive vertices a pair.
pub open spec fn ring_walk(pairs: Seq<[usize; 2]>, ring: Seq<usize>) -> bool {
    &&& ring.len() == pairs.len()
    &&& ring.len() > 0
    &&& is_endpoint(pairs, ring[0])
    &&& forall|v: usize| is_endpoint(pairs, v) ==> ring[0] <= v
    &&& forall|i: int| 0 <= i < ring.len() ==> is_endpoint(pairs, #[trigger] ring[i])
    &&& forall|i: int|
        0 <= i < ring.len() ==> is_pair(pairs, #[trigger] ring[i], ring[if i + 1 == ring.len() { 0 } else { i + 1 }])
}

/// Position of `x` in `vs`, if present.
fn position(vs: &Vec<usize>, x: usize) -> (r: Option<usize>)
    ensures
        r matches Some(i) ==> i < vs@.len() && vs@[i as int] == x,
        r is None ==> !vs@.contains(x),
{
    let mut i: usize = 0;
    while i < vs.len()
        invariant
            i <= vs@.len(),
            forall|j: int| 0 <= j < i ==> vs@[j] != x,
        decreases vs@.len() - i,
    {
        if vs[i] == x {
            return Some(i);
        }
        i += 1;
    }
    None
}

/// The pairs are the edges of a cycle through at least three distinct
/// vertices (none of them `usize::MAX`), listed in cycle order: pair `j`
/// runs from its first vertex to the first vertex of the next pair.
pub open spec fn pairs_in_ring_order(pairs: Seq<[usize; 2]>) -> bool {
    &&& pairs.len() >= 3
    &&& forall|j: int| 0 <= j < pairs.len() ==> (#[trigger] pairs[j])[1] == pairs[cyc_next(j, pairs.len() as int)][0]
    &&& forall|i: int, j: int|
        0 <= i < pairs.len() && 0 <= j < pairs.len() && i != j ==> (#[trigger] pairs[i])[0] != (#[trigger] pairs[j])[0]
    &&& forall|j: int| 0 <= j < pairs.len() ==> (#[trigger] pairs[j])[0] != usize::MAX
}

/// Ring-ordered pairs: distinct vertices seen before endpoint `side` of
/// pair `j` (`side == 2` standing for the next pair's start).
spec fn ring_seen(k: int, j: int, side: int) -> int {
    let m = if side == 2 { j + 2 } else { j + 1 };
    if j == 0 && side == 0 {
        0
    } else if m < k {
        m
    } else {
        k
    }
}

/// Ring-ordered pairs: occurrences of vertex `i` before endpoint `side`
/// of pair `j`.
spec fn ring_deg(k: int, j: int, side: int, i: int) -> int {
    let jj = if side == 2 { j + 1 } else { j };
    let ss = if side == 2 { 0 } else { side };
    if i == 0 {
        (if jj > 0 || ss == 1 { 1int } else { 0int }) + (if jj == k { 1int } else { 0int })
    } else {
        (if jj >= i { 1int } else { 0int }) + (if jj > i || (jj == i && ss == 1) { 1int } else { 0int })
    }
}

/// Ring-ordered pairs: the partner of vertex `i` at its first occurrence.
spec fn ring_first(pairs: Seq<[usize; 2]>, i: int) -> usize {
    if i == 0 {
        pairs[1][0]
    } else {
        pairs[i - 1][0]
    }
}

/// Ring-ordered pairs: the partner of vertex `i` at its second occurrence.
spec fn ring_second(pairs: Seq<[usize; 2]>, i: int) -> usize {
    if i == 0 {
        pairs[pairs.len() - 1][0]
    } else {
        pairs[cyc_next(i, pairs.len() as int)][0]
    }
}

/// The vertex table of [`edge_ring`] on ring-ordered pairs before endpoint
/// `side` of pair `j`: the vertices in pair order, with their degrees and
/// partners so far.
#[verifier::opaque]
spec fn ring_table(pairs: Seq<[usize; 2]>, vs: Seq<usize>, deg: Seq<usize>, adj: Seq<[usize; 2]>, j: int, side: int) -> bool {
    &&& vs.len() == ring_seen(pairs.len() as int, j, side)
    &&& forall|i: int|
        0 <= i < vs.len() ==> {
            &&& #[trigger] vs[i] == pairs[i][0]
            &&& deg[i] == ring_deg(pairs.len() as int, j, side, i)
            &&& deg[i] >= 1 ==> adj[i][0] == ring_first(pairs, i)
            &&& deg[i] >= 2 ==> adj[i][1] == ring_second(pairs, i)
        }
}

/// Ring-ordered pairs: the position along the cycle of the `t`-th ring
/// vertex when the walk starts at position `m`: forward from the first
/// pair, backward otherwise.
spec fn ring_pos(k: int, m: int, t: int) -> int {
    if m == 0 {
        t
    } else if t <= m {
        m - t
    } else {
        m - t + k
    }
}

/// On ring-ordered pairs, the table lookup of the endpoint at position
/// `xi` of the cycle finds it exactly at slot `xi`, or it is the next new
/// vertex; either way its degree so far is below two.
proof fn lemma_ring_slot(pairs: Seq<[usize; 2]>, vs: Seq<usize>, deg: Seq<usize>, adj: Seq<[usize; 2]>, j: int, side: int, xi: int)
    requires
        pairs_in_ring_order(pairs),
        0 <= j < pairs.len(),
        0 <= side < 2,
        xi == if side == 0 { j } else { cyc_next(j, pairs.len() as int) },
        deg.len() == vs.len(),
        ring_table(pairs, vs, deg, adj, j, side),
    ensures
        forall|i: int| 0 <= i < vs.len() ==> #[trigger] vs[i] == pairs[i][0],
        forall|i: int| 0 <= i < vs.len() && vs[i] == pairs[xi][0] ==> i == xi,
        !vs.contains(pairs[xi][0]) ==> xi == vs.len() && vs.len() < pairs.len(),
        xi < vs.len() ==> deg[xi] < 2,
        xi <= vs.len(),
{
    reveal(ring_table);
    let k = pairs.len() as int;
    assert forall|i: int| 0 <= i < vs.len() && vs[i] == pairs[xi][0] implies i == xi by {
        assert(vs[i] == pairs[i][0]);
        if i != xi {
            assert(pairs[i][0] != pairs[xi][0]);
        }
    }
    if xi < vs.len() {
        assert(vs[xi] == pairs[xi][0]);
    }
}

/// On ring-ordered pairs, recording the endpoint at position `xi` (with
/// partner at `yi`) in the table moves it to the next endpoint.
proof fn lemma_ring_record(
    pairs: Seq<[usize; 2]>,
    vs0: Seq<usize>,
    deg0: Seq<usize>,
    adj0: Seq<[usize; 2]>,
    vs1: Seq<usize>,
    degm: Seq<usize>,
    adjm: Seq<[usize; 2]>,
    j: int,
    side: int,
    xi: int,
    yi: int,
    d: usize,
    row: [usize; 2],
)
    requires
        pairs_in_ring_order(pairs),
        0 <= j < pairs.len(),
        0 <= side < 2,
        xi == if side == 0 { j } else { cyc_next(j, pairs.len() as int) },
        yi == if side == 0 { cyc_next(j, pairs.len() as int) } else { j },
        ring_table(pairs, vs0, deg0, adj0, j, side),
        (xi < vs0.len() && vs1 == vs0 && degm == deg0 && adjm == adj0) || (xi == vs0.len() && vs1 == vs0.push(
            pairs[xi][0],
        ) && degm == deg0.push(0) && adjm == adj0.push([usize::MAX, usize::MAX])),
        deg0.len() == vs0.len(),
        adj0.len() == vs0.len(),
        d == degm[xi],
        row == (if d == 0 { [pairs[yi][0], adjm[xi][1]] } else { [adjm[xi][0], pairs[yi][0]] }),
    ensures
        ring_table(pairs, vs1, degm.update(xi, (d + 1) as usize), adjm.update(xi, row), j, side + 1),
{
    reveal(ring_table);
    let k = pairs.len() as int;
    let deg1 = degm.update(xi, (d + 1) as usize);
    let adj1 = adjm.update(xi, row);
    if xi == vs0.len() {
        assert(ring_deg(k, j, side, xi) == 0);
    }
    assert forall|i: int| 0 <= i < vs1.len() implies {
        &&& #[trigger] vs1[i] == pairs[i][0]
        &&& deg1[i] == ring_deg(k, j, side + 1, i)
        &&& deg1[i] >= 1 ==> adj1[i][0] == ring_first(pairs, i)
        &&& deg1[i] >= 2 ==> adj1[i][1] == ring_second(pairs, i)
    } by {
        if i < vs0.len() {
            assert(vs0[i] == pairs[i][0]);
        }
        if i != xi {
            assert(vs1[i] == vs0[i]);
            assert(deg1[i] == deg0[i]);
            assert(adj1[i] == adj0[i]);
        }
    }
}

/// The table before the next pair's start is the table after both ends of
/// the current pair.
proof fn lemma_ring_next_pair(pairs: Seq<[usize; 2]>, vs: Seq<usize>, deg: Seq<usize>, adj: Seq<[usize; 2]>, j: int)
    requires
        0 <= j,
        ring_table(pairs, vs, deg, adj, j, 2),
    ensures
        ring_table(pairs, vs, deg, adj, j + 1, 0),
{
    reveal(ring_table);
    assert(ring_seen(pairs.len() as int, j, 2) == ring_seen(pairs.len() as int, j + 1, 0));
    assert forall|i: int| 0 <= i < vs.len() implies #[trigger] ring_deg(pairs.len() as int, j, 2, i) == ring_deg(
        pairs.len() as int,
        j + 1,
        0,
        i,
    ) by {}
}

/// The finished vertex table of [`edge_ring`] on ring-ordered pairs: the
/// vertices in pair order, each with its two cycle neighbours.
#[verifier::opaque]
spec fn ring_built(pairs: Seq<[usize; 2]>, vs: Seq<usize>, adj: Seq<[usize; 2]>) -> bool {
    &&& vs.len() == pairs.len()
    &&& adj.len() == pairs.len()
    &&& forall|i: int|
        0 <= i < vs.len() ==> #[trigger] vs[i] == pairs[i][0] && adj[i][0] == ring_first(pairs, i) && adj[i][1]
            == ring_second(pairs, i)
}

/// After all pairs, the table holds every vertex with degree two.
proof fn lemma_ring_full(pairs: Seq<[usize; 2]>, vs: Seq<usize>, deg: Seq<usize>, adj: Seq<[usize; 2]>)
    requires
        pairs_in_ring_order(pairs),
        ring_table(pairs, vs, deg, adj, pairs.len() as int, 0),
        deg.len() == vs.len(),
        adj.len() == vs.len(),
    ensures
        vs.len() == pairs.len(),
        forall|i: int| 0 <= i < vs.len() ==> #[trigger] deg[i] == 2,
        ring_built(pairs, vs, adj),
{
    reveal(ring_table);
    reveal(ring_built);
    let k = pairs.len() as int;
    assert forall|i: int| 0 <= i < vs.len() implies #[trigger] deg[i] == 2 by {
        assert(vs[i] == pairs[i][0]);
    }
    assert forall|i: int| 0 <= i < vs.len() implies #[trigger] vs[i] == pairs[i][0] && adj[i][0] == ring_first(pairs, i)
        && adj[i][1] == ring_second(pairs, i) by {
        assert(vs[i] == pairs[i][0]);
        assert(deg[i] == 2);
    }
}

/// What the finished table holds at slot `q`, and that no other slot
/// holds its vertex.
proof fn lemma_ring_built_at(pairs: Seq<[usize; 2]>, vs: Seq<usize>, adj: Seq<[usize; 2]>, q: int, slot: int)
    requires
        pairs_in_ring_order(pairs),
        ring_built(pairs, vs, adj),
        0 <= q < pairs.len(),
        0 <= slot < pairs.len(),
    ensures
        vs[q] == pairs[q][0],
        vs.len() == pairs.len(),
        adj.len() == pairs.len(),
        adj[q][0] == ring_first(pairs, q),
        adj[q][1] == ring_second(pairs, q),
        vs[slot] == pairs[q][0] ==> slot == q,
{
    reveal(ring_built);
    assert(vs[slot] == pairs[slot][0]);
    if slot != q {
        assert(pairs[slot][0] != pairs[q][0]);
    }
}

/// One step of the ring walk on ring-ordered pairs: from the vertex at
/// position `ring_pos(m, i - 1)`, coming from the one before it (none at
/// the first step), the walk moves on to position `ring_pos(m, i)`.
proof fn lemma_ring_walk_step(pairs: Seq<[usize; 2]>, m: int, i: int)
    requires
        pairs_in_ring_order(pairs),
        0 <= m < pairs.len(),
        1 <= i < pairs.len(),
    ensures
        ({
            let k = pairs.len() as int;
            let q = ring_pos(k, m, i - 1);
            let prev = if i == 1 { usize::MAX } else { pairs[ring_pos(k, m, i - 2)][0] };
            let p0 = ring_first(pairs, q);
            let p1 = ring_second(pairs, q);
            &&& 0 <= q < k
            &&& (if p0 != prev { p0 } else { p1 }) == pairs[ring_pos(k, m, i)][0]
        }),
{
    let k = pairs.len() as int;
    let q = ring_pos(k, m, i - 1);
    assert(pairs[0][0] != pairs[1][0]);
    if q >= 1 {
        assert(pairs[q - 1][0] != pairs[cyc_next(q, k)][0]);
        assert(pairs[q - 1][0] != usize::MAX);
    } else {
        assert(pairs[1][0] != usize::MAX);
        assert(pairs[1][0] != pairs[k - 1][0]);
    }
}

/// The ring walk on ring-ordered pairs closes: the vertex it ends at
/// neighbours the one it started from.
proof fn lemma_ring_closes(pairs: Seq<[usize; 2]>, m: int)
    requires
        pairs_in_ring_order(pairs),
        0 <= m < pairs.len(),
    ensures
        ({
            let k = pairs.len() as int;
            let q = ring_pos(k, m, k - 1);
            &&& 0 <= q < k
            &&& ring_first(pairs, q) == pairs[m][0] || ring_second(pairs, q) == pairs[m][0]
        }),
{
}

/// Chains the pairs (the two vertices of each tet around an edge other than
/// the edge's ends) into the closed ring around the edge: every vertex must
/// have exactly two pair neighbours and there must be as many distinct
/// vertices as pairs; the walk starts at the least vertex and ends back at
/// it. `None` when the pairs do not pass these checks.
#[verifier::rlimit(60)]
pub fn edge_ring(pairs: &[[usize; 2]]) -> (ring: Option<Vec<usize>>)
    requires
        pairs@.len() > 0,
    ensures
        ring matches Some(r) ==> ring_walk(pairs@, r@),
        pairs_in_ring_order(pairs@) ==> ring is Some,
{
    let ghost ord = pairs_in_ring_order(pairs@);
    let k = pairs.len();
    // Distinct-vertex table with degree-2 adjacency.
    let mut vs: Vec<usize> = Vec::new();
    let mut adj: Vec<[usize; 2]> = Vec::new();
    let mut deg: Vec<usize> = Vec::new();
    let mut j: usize = 0;
    proof {
        reveal(ring_table);
    }
    while j < k
        invariant
            k == pairs@.len(),
            j <= k,
            vs@.len() <= k,
            adj@.len() == vs@.len(),
            deg@.len() == vs@.len(),
            forall|s: int| 0 <= s < vs@.len() ==> is_endpoint(pairs@, #[trigger] vs@[s]),
            forall|s: int| 0 <= s < vs@.len() ==> #[trigger] deg@[s] <= 2,
            forall|s: int, d: int|
                0 <= s < vs@.len() && 0 <= d < deg@[s] ==> is_pair(pairs@, vs@[s], #[trigger] adj@[s][d]),
            forall|s: int, d: int|
                0 <= s < vs@.len() && 0 <= d < deg@[s] ==> vs@.contains(#[trigger] adj@[s][d]) || exists|
                    jj: int,
                    ss: int,
                | j <= jj < k && 0 <= ss < 2 && pairs@[jj][ss] == adj@[s][d],
            forall|jj: int, ss: int| 0 <= jj < j && 0 <= ss < 2 ==> vs@.contains(#[trigger] pairs@[jj][ss]),
            ord == pairs_in_ring_order(pairs@),
            ord ==> ring_table(pairs@, vs@, deg@, adj@, j as int, 0),
        decreases k - j,
    {
        let pr = pairs[j];
        let mut side: usize = 0;
        while side < 2
            invariant
                k == pairs@.len(),
                j < k,
                side <= 2,
                pr == pairs@[j as int],
                vs@.len() <= k,
                adj@.len() == vs@.len(),
                deg@.len() == vs@.len(),
                forall|s: int| 0 <= s < vs@.len() ==> is_endpoint(pairs@, #[trigger] vs@[s]),
                forall|s: int| 0 <= s < vs@.len() ==> #[trigger] deg@[s] <= 2,
                forall|s: int, d: int|
                    0 <= s < vs@.len() && 0 <= d < deg@[s] ==> is_pair(pairs@, vs@[s], #[trigger] adj@[s][d]),
                forall|s: int, d: int|
                    0 <= s < vs@.len() && 0 <= d < deg@[s] ==> vs@.contains(#[trigger] adj@[s][d]) || exists|
                        jj: int,
                        ss: int,
                    | j <= jj < k && 0 <= ss < 2 && pairs@[jj][ss] == adj@[s][d],
                forall|jj: int, ss: int| 0 <= jj < j && 0 <= ss < 2 ==> vs@.contains(#[trigger] pairs@[jj][ss]),
                forall|ss: int| 0 <= ss < side ==> vs@.contains(#[trigger] pr[ss]),
                ord == pairs_in_ring_order(pairs@),
                ord ==> ring_table(pairs@, vs@, deg@, adj@, j as int, side as int),
            decreases 2 - side,
        {
            let x = pr[side];
            let y = pr[1 - side];
            let ghost xi: int = if side == 0 { j as int } else { cyc_next(j as int, k as int) };
            let ghost yi: int = if side == 0 { cyc_next(j as int, k as int) } else { j as int };
            proof {
                if ord {
                    assert(pairs@[j as int][1] == pairs@[cyc_next(j as int, k as int)][0]);
                    assert(x == pairs@[xi][0]);
                    assert(y == pairs@[yi][0]);
                }
            }
            proof {
                assert(pairs@[j as int][side as int] == x);
                assert(is_endpoint(pairs@, x));
                assert(is_pair(pairs@, x, y));
            }
            let ghost vs0 = vs@;
            let ghost deg0 = deg@;
            let ghost adj0 = adj@;
            proof {
                if ord {
                    lemma_ring_slot(pairs@, vs@, deg@, adj@, j as int, side as int, xi);
                }
            }
            let slot = match position(&vs, x) {
                Some(i) => i,
                None => {
                    if vs.len() == k {
                        return None;
                    }
                    vs.push(x);
                    adj.push([usize::MAX, usize::MAX]);
                    deg.push(0);
                    proof {
                        assert forall|z: usize| vs0.contains(z) implies vs@.contains(z) by {
                            let q = choose|q: int| 0 <= q < vs0.len() && vs0[q] == z;
                            assert(vs@[q] == z);
                        }
                    }
                    vs.len() - 1
                },
            };
            proof {
                assert(forall|z: usize| vs0.contains(z) ==> vs@.contains(z));
            }
            proof {
                if ord {
                    if vs0.contains(x) {
                        assert(slot as int == xi);
                        assert(vs@ == vs0 && deg@ == deg0 && adj@ == adj0);
                    } else {
                        assert(slot as int == xi);
                    }
                }
            }
            if deg[slot] == 2 {
                return None;
            }
            let ghost old_adj = adj@;
            let ghost old_deg = deg@;
            let d = deg[slot];
            let row = adj[slot];
            let new_row = if d == 0 {
                [y, row[1]]
            } else {
                [row[0], y]
            };
            adj.set(slot, new_row);
            deg.set(slot, d + 1);
            proof {
                assert forall|s: int, dd: int| 0 <= s < vs@.len() && 0 <= dd < deg@[s] implies is_pair(
                    pairs@,
                    vs@[s],
                    #[trigger] adj@[s][dd],
                ) by {
                    if s != slot || dd != d {
                        assert(adj@[s][dd] == old_adj[s][dd]);
                    }
                }
                assert forall|s: int, dd: int| 0 <= s < vs@.len() && 0 <= dd < deg@[s] implies vs@.contains(
                    #[trigger] adj@[s][dd],
                ) || exists|jj: int, ss: int| j <= jj < k && 0 <= ss < 2 && pairs@[jj][ss] == adj@[s][dd] by {
                    if s != slot || dd != d {
                        assert(adj@[s][dd] == old_adj[s][dd]);
                    } else {
                        assert(pairs@[j as int][1 - side as int] == y);
                    }
                }
                assert(vs@[slot as int] == x);
                if ord {
                    lemma_ring_record(pairs@, vs0, deg0, adj0, vs@, old_deg, old_adj, j as int, side as int, xi, yi, d, new_row);
                }
            }
            side += 1;
        }
        proof {
            assert forall|s: int, d: int|
                0 <= s < vs@.len() && 0 <= d < deg@[s] implies vs@.contains(#[trigger] adj@[s][d]) || exists|
                    jj: int,
                    ss: int,
                | j + 1 <= jj < k && 0 <= ss < 2 && pairs@[jj][ss] == adj@[s][d] by {
                if !vs@.contains(adj@[s][d]) {
                    let (jj, ss) = choose|jj: int, ss: int| j <= jj < k && 0 <= ss < 2 && pairs@[jj][ss] == adj@[s][d];
                    if jj == j {
                        assert(vs@.contains(pr[ss]));
                    }
                }
            }
            if ord {
                lemma_ring_next_pair(pairs@, vs@, deg@, adj@, j as int);
            }
        }
        j += 1;
    }
    proof {
        if ord {
            lemma_ring_full(pairs@, vs@, deg@, adj@);
        }
    }
    if vs.len() != k {
        return None;
    }
    let mut s: usize = 0;
    while s < k
        invariant
            ord == pairs_in_ring_order(pairs@),
            ord ==> ring_built(pairs@, vs@, adj@) && forall|t: int| 0 <= t < k ==> #[trigger] deg@[t] == 2,
            k == vs@.len(),
            deg@.len() == k,
            s <= k,
            forall|t: int| 0 <= t < s ==> #[trigger] deg@[t] == 2,
        decreases k - s,
    {
        if deg[s] != 2 {
            return None;
        }
        s += 1;
    }
    // Walk the ring from its least vertex.
    let mut start = vs[0];
    let mut s: usize = 1;
    while s < k
        invariant
            k == vs@.len(),
            1 <= s <= k,
            vs@.contains(start),
            forall|t: int| 0 <= t < s ==> start <= #[trigger] vs@[t],
            ord == pairs_in_ring_order(pairs@),
            ord ==> ring_built(pairs@, vs@, adj@),
        decreases k - s,
    {
        if vs[s] < start {
            start = vs[s];
        }
        s += 1;
    }
    let ghost m: int = choose|m: int| 0 <= m < vs@.len() && vs@[m] == start;
    let mut ring: Vec<usize> = Vec::new();
    ring.push(start);
    let mut prev = usize::MAX;
    let mut i: usize = 1;
    while i < k
        invariant
            k == pairs@.len(),
            k == vs@.len(),
            adj@.len() == k,
            deg@.len() == k,
            1 <= i <= k,
            ring@.len() == i,
            ring@[0] == start,
            forall|t: int| 0 <= t < k ==> #[trigger] deg@[t] == 2,
            forall|t: int| 0 <= t < vs@.len() ==> is_endpoint(pairs@, #[trigger] vs@[t]),
            forall|t: int, d: int| 0 <= t < k && 0 <= d < 2 ==> is_pair(pairs@, vs@[t], #[trigger] adj@[t][d]),
            forall|t: int, d: int| 0 <= t < k && 0 <= d < 2 ==> vs@.contains(#[trigger] adj@[t][d]),
            forall|t: int| 0 <= t < ring@.len() ==> vs@.contains(#[trigger] ring@[t]),
            forall|t: int| 0 <= t < ring@.len() - 1 ==> is_pair(pairs@, #[trigger] ring@[t], ring@[t + 1]),
            ord == pairs_in_ring_order(pairs@),
            ord ==> {
                &&& ring_built(pairs@, vs@, adj@)
                &&& 0 <= m < k
                &&& vs@[m] == start
                &&& forall|t: int| 0 <= t < ring@.len() ==> ring@[t] == pairs@[#[trigger] ring_pos(k as int, m, t)][0]
                &&& prev == if i == 1 { usize::MAX } else { ring@[i - 2] }
            },
        decreases k - i,
    {
        let cur = ring[i - 1];
        proof {
            if ord {
                lemma_ring_walk_step(pairs@, m, i as int);
                let q = ring_pos(k as int, m, i - 1);
                assert(ring@[i - 1] == pairs@[q][0]);
                lemma_ring_built_at(pairs@, vs@, adj@, q, 0);
                assert(vs@.contains(cur));
                if i >= 2 {
                    assert(ring@[i - 2] == pairs@[ring_pos(k as int, m, i - 2)][0]);
                }
            }
        }
        let slot = match position(&vs, cur) {
            Some(p) => p,
            None => {
                return None;
            },
        };
        let p = adj[slot];
        let next = if p[0] != prev {
            p[0]
        } else {
            p[1]
        };
        proof {
            assert(is_pair(pairs@, vs@[slot as int], adj@[slot as int][0]));
            assert(is_pair(pairs@, vs@[slot as int], adj@[slot as int][1]));
            assert(vs@.contains(adj@[slot as int][0]));
            assert(vs@.contains(adj@[slot as int][1]));
        }
        let ghost ring0 = ring@;
        prev = cur;
        ring.push(next);
        proof {
            if ord {
                let q = ring_pos(k as int, m, i - 1);
                lemma_ring_built_at(pairs@, vs@, adj@, q, slot as int);
                assert(ring@[i as int] == pairs@[ring_pos(k as int, m, i as int)][0]);
                assert forall|t: int| 0 <= t < ring@.len() implies ring@[t] == pairs@[#[trigger] ring_pos(k as int, m, t)][0] by {
                    if t < i {
                        assert(ring@[t] == ring0[t]);
                    }
                }
            }
        }
        i += 1;
    }
    // Closed ring?
    let last = ring[k - 1];
    proof {
        if ord {
            lemma_ring_closes(pairs@, m);
            let q = ring_pos(k as int, m, k - 1);
            assert(ring@[k - 1] == pairs@[q][0]);
            lemma_ring_built_at(pairs@, vs@, adj@, q, 0);
            lemma_ring_built_at(pairs@, vs@, adj@, m, 0);
            assert(vs@.contains(last));
        }
    }
    let slot = match position(&vs, last) {
        Some(p) => p,
        None => {
            return None;
        },
    };
    proof {
        if ord {
            let q = ring_pos(k as int, m, k - 1);
            lemma_ring_built_at(pairs@, vs@, adj@, q, slot as int);
        }
    }
    if !(adj[slot][0] == start || adj[slot][1] == start) {
        return None;
    }
    proof {
        assert(is_pair(pairs@, vs@[slot as int], adj@[slot as int][0]));
        assert(is_pair(pairs@, vs@[slot as int], adj@[slot as int][1]));
        assert forall|v: usize| is_endpoint(pairs@, v) implies ring@[0] <= v by {
            let (jj, ss) = choose|jj: int, ss: int| 0 <= jj < pairs@.len() && 0 <= ss < 2 && #[trigger] pairs@[jj][ss] == v;
            assert(vs@.contains(pairs@[jj][ss]));
        }
        assert forall|t: int| 0 <= t < ring@.len() implies is_endpoint(pairs@, #[trigger] ring@[t]) by {
            assert(vs@.contains(ring@[t]));
        }
        assert forall|t: int| 0 <= t < ring@.len() implies is_pair(
            pairs@,
            #[trigger] ring@[t],
            ring@[if t + 1 == ring@.len() { 0 } else { t + 1 }],
        ) by {
            if t + 1 == ring@.len() {
                if adj@[slot as int][0] == start {
                    assert(is_pair(pairs@, last, start));
                } else {
                    assert(is_pair(pairs@, last, start));
                }
            }
        }
    }
    Some(ring)
}

/// Successor of position `i` on a cycle of length `n`.
pub open spec fn cyc_next(i: int, n: int) -> int {
    if i + 1 == n { 0 } else { i + 1 }
}

/// Every two cyclically consecutive ring vertices turn positively around
/// the edge `(d, e)`.
pub open spec fn ring_turns_positively<F: Fn(usize, usize, usize, usize) -> Sign>(
    o: F,
    r: Seq<usize>,
    d: usize,
    e: usize,
) -> bool {
    forall|i: int| 0 <= i < r.len() ==> orient_sign(o, #[trigger] r[i], r[cyc_next(i, r.len() as int)], d, e)
        == Sign::Positive
}

/// The ring, reversed when its first two vertices turn negatively around
/// the edge `(d, e)`.
pub open spec fn oriented_ring<F: Fn(usize, usize, usize, usize) -> Sign>(
    o: F,
    ring: Seq<usize>,
    d: usize,
    e: usize,
) -> Seq<usize> {
    if orient_sign(o, ring[0], ring[1], d, e) == Sign::Negative {
        ring.reverse()
    } else {
        ring
    }
}

/// Orients the ring around the edge `(d, e)` so that consecutive vertices
/// rotate positively (reversing it if its first step turns negatively);
/// `None` when some step of the oriented ring does not turn strictly
/// positively (a degenerate or non-embedded star).
#[verifier::spinoff_prover]
pub fn orient_ring<F: Fn(usize, usize, usize, usize) -> Sign>(o: &F, ring: &[usize], d: usize, e: usize) -> (r: Option<
    Vec<usize>,
>)
    requires
        is_orient_oracle(*o),
        ring@.len() >= 2,
    ensures
        match r {
            Some(v) => v@ == oriented_ring(*o, ring@, d, e) && ring_turns_positively(*o, v@, d, e),
            None => !ring_turns_positively(*o, oriented_ring(*o, ring@, d, e), d, e),
        },
{
    let k = ring.len();
    let flip = orient_of(o, ring[0], ring[1], d, e) == Sign::Negative;
    let mut v: Vec<usize> = Vec::new();
    let mut i: usize = 0;
    while i < k
        invariant
            k == ring@.len(),
            i <= k,
            v@.len() == i,
            forall|t: int|
                0 <= t < i ==> #[trigger] v@[t] == (if flip { ring@[k - 1 - t] } else { ring@[t] }),
        decreases k - i,
    {
        if flip {
            v.push(ring[k - 1 - i]);
        } else {
            v.push(ring[i]);
        }
        i += 1;
    }
    proof {
        if flip {
            assert(v@ =~= ring@.reverse());
        } else {
            assert(v@ =~= ring@);
        }
        assert(v@ == oriented_ring(*o, ring@, d, e));
    }
    let mut i: usize = 0;
    while i < k
        invariant
            k == v@.len(),
            k >= 2,
            i <= k,
            is_orient_oracle(*o),
            v@ == oriented_ring(*o, ring@, d, e),
            forall|t: int|
                0 <= t < i ==> orient_sign(*o, #[trigger] v@[t], v@[cyc_next(t, k as int)], d, e) == Sign::Positive,
        decreases k - i,
    {
        let nx = if i + 1 == k { 0 } else { i + 1 };
        if orient_of(o, v[i], v[nx], d, e) != Sign::Positive {
            proof {
                assert(orient_sign(*o, v@[i as int], v@[cyc_next(i as int, k as int)], d, e) != Sign::Positive);
                assert(!ring_turns_positively(*o, v@, d, e));
            }
            return None;
        }
        i += 1;
    }
    Some(v)
}


/// The tets that fill the sub-polygon `ring[i..=j]` of the ring around the
/// edge `(d, e)`, triangulated by `cut`: the triangle `(ring[i], ring[m],
/// ring[j])` with `m = cut[i][j]` spawns the tets `(p, q, r, e)` and
/// `(p, r, q, d)`, followed by the fills of `ring[m..=j]` and `ring[i..=m]`.
pub open spec fn ring_fill(ring: Seq<usize>, cut: Seq<Seq<usize>>, d: usize, e: usize, i: int, j: int) -> Seq<[usize; 4]>
    decreases j - i,
{
    if j - i < 2 {
        Seq::empty()
    } else {
        let m = cut[i][j] as int;
        if i < m && m < j {
            seq![[ring[i], ring[m], ring[j], e], [ring[i], ring[j], ring[m], d]] + ring_fill(ring, cut, d, e, m, j)
                + ring_fill(ring, cut, d, e, i, m)
        } else {
            Seq::empty()
        }
    }
}

/// The fills still owed by a work stack, top (last) first.
pub open spec fn owed(ring: Seq<usize>, cut: Seq<Seq<usize>>, d: usize, e: usize, st: Seq<(usize, usize)>) -> Seq<[usize; 4]>
    decreases st.len(),
{
    if st.len() == 0 {
        Seq::empty()
    } else {
        ring_fill(ring, cut, d, e, st.last().0 as int, st.last().1 as int) + owed(ring, cut, d, e, st.drop_last())
    }
}

/// Size of the work left on a stack.
pub open spec fn stack_weight(st: Seq<(usize, usize)>) -> nat
    decreases st.len(),
{
    if st.len() == 0 {
        0
    } else {
        (if st.last().1 >= st.last().0 + 2 {
            (st.last().1 - st.last().0 - 1) as nat
        } else {
            0
        }) + stack_weight(st.drop_last())
    }
}

/// `cut` is a triangulation table of a `k`-gon: every sub-polygon of at
/// least three vertices is cut at a vertex strictly inside it.
pub open spec fn valid_cut(cut: Seq<Vec<usize>>, k: int) -> bool {
    &&& cut.len() == k
    &&& forall|i: int| 0 <= i < k ==> (#[trigger] cut[i])@.len() == k
    &&& forall|i: int, j: int| 0 <= i && i + 2 <= j < k ==> i < #[trigger] cut[i]@[j] && cut[i]@[j] < j
}

/// The rows of the cut table as plain sequences.
pub open spec fn cut_views(cut: Seq<Vec<usize>>) -> Seq<Seq<usize>> {
    cut.map_values(|row: Vec<usize>| row@)
}

/// A sub-polygon `ring[i..=j]` of `j - i + 1 >= 2` vertices is filled by
/// two tets per triangle, `2 (j - i - 1)` in all.
pub proof fn lemma_ring_fill_len(ring: Seq<usize>, cut: Seq<Vec<usize>>, d: usize, e: usize, i: int, j: int)
    requires
        valid_cut(cut, ring.len() as int),
        0 <= i < j < ring.len(),
    ensures
        ring_fill(ring, cut_views(cut), d, e, i, j).len() == 2 * (j - i - 1),
    decreases j - i,
{
    if j - i >= 2 {
        let m = cut_views(cut)[i][j] as int;
        assert(cut_views(cut)[i] == cut[i]@);
        lemma_ring_fill_len(ring, cut, d, e, m, j);
        lemma_ring_fill_len(ring, cut, d, e, i, m);
    }
}

/// The `2 (k - 2)` tets that replace the star of the edge `(d, e)` when its
/// ring polygon is triangulated by the cut table: each triangle
/// `(p, q, r)` in ring order spawns `(p, q, r, e)` and `(p, r, q, d)`.
pub fn ring_tets(ring: &[usize], cut: &Vec<Vec<usize>>, d: usize, e: usize) -> (out: Vec<[usize; 4]>)
    requires
        ring@.len() >= 2,
        valid_cut(cut@, ring@.len() as int),
    ensures
        out@ == ring_fill(ring@, cut_views(cut@), d, e, 0, ring@.len() - 1),
        out@.len() == 2 * (ring@.len() - 2),
{
    let k = ring.len();
    let ghost cv = cut_views(cut@);
    let ghost goal = ring_fill(ring@, cv, d, e, 0, k - 1);
    let mut out: Vec<[usize; 4]> = Vec::new();
    let mut stack: Vec<(usize, usize)> = Vec::new();
    stack.push((0, k - 1));
    proof {
        assert(stack@.drop_last() =~= Seq::<(usize, usize)>::empty());
        assert(stack@.last() == (0usize, (k - 1) as usize));
        assert(owed(ring@, cv, d, e, stack@.drop_last()) =~= Seq::<[usize; 4]>::empty());
        assert(owed(ring@, cv, d, e, stack@) =~= goal);
    }
    while stack.len() > 0
        invariant
            k == ring@.len(),
            k >= 2,
            cv == cut_views(cut@),
            valid_cut(cut@, k as int),
            goal == ring_fill(ring@, cv, d, e, 0, k - 1),
            forall|t: int| 0 <= t < stack@.len() ==> (#[trigger] stack@[t]).0 <= stack@[t].1 && stack@[t].1 < k,
            out@ + owed(ring@, cv, d, e, stack@) == goal,
        decreases stack_weight(stack@) * 2 + stack@.len(),
    {
        let ghost st0 = stack@;
        let (i, j) = match stack.pop() {
            Some(top) => top,
            None => (0, 0),
        };
        proof {
            assert(stack@ == st0.drop_last());
            assert((i, j) == st0.last());
        }
        if j - i < 2 {
            proof {
                assert(ring_fill(ring@, cv, d, e, i as int, j as int) =~= Seq::<[usize; 4]>::empty());
                assert(owed(ring@, cv, d, e, st0) =~= owed(ring@, cv, d, e, stack@));
                assert(stack_weight(st0) == stack_weight(stack@));
            }
            continue;
        }
        let m = cut[i][j];
        proof {
            assert(cv[i as int] == cut@[i as int]@);
            assert(i < m && m < j);
        }
        let ghost out0 = out@;
        let ghost rest = stack@;
        out.push([ring[i], ring[m], ring[j], e]);
        out.push([ring[i], ring[j], ring[m], d]);
        stack.push((i, m));
        stack.push((m, j));
        proof {
            let fm = ring_fill(ring@, cv, d, e, m as int, j as int);
            let fi = ring_fill(ring@, cv, d, e, i as int, m as int);
            let pair = seq![[ring@[i as int], ring@[m as int], ring@[j as int], e], [ring@[i as int], ring@[j as int], ring@[m as int], d]];
            assert(ring_fill(ring@, cv, d, e, i as int, j as int) == pair + fm + fi);
            assert(stack@.drop_last() =~= rest.push((i, m)));
            assert(stack@.last() == (m, j));
            assert(rest.push((i, m)).drop_last() =~= rest);
            assert(rest.push((i, m)).last() == (i, m));
            assert(owed(ring@, cv, d, e, rest.push((i, m))) == fi + owed(ring@, cv, d, e, rest));
            assert(owed(ring@, cv, d, e, stack@) == fm + owed(ring@, cv, d, e, rest.push((i, m))));
            assert(owed(ring@, cv, d, e, stack@) == fm + (fi + owed(ring@, cv, d, e, rest)));
            assert(out@ =~= out0 + pair);
            assert(out@ + owed(ring@, cv, d, e, stack@) =~= out0 + (pair + fm + fi + owed(ring@, cv, d, e, rest)));
            assert(stack_weight(rest.push((i, m))) == (if m >= i + 2 { m - i - 1 } else { 0 }) + stack_weight(rest));
            assert(stack_weight(stack@) == (if j >= m + 2 { j - m - 1 } else { 0 }) + stack_weight(rest.push((i, m))));
            assert(stack_weight(st0) == (j - i - 1) + stack_weight(rest));
        }
    }
    proof {
        assert(out@ + owed(ring@, cv, d, e, stack@) == out@ + Seq::<[usize; 4]>::empty());
        assert(out@ + Seq::<[usize; 4]>::empty() =~= out@);
        lemma_ring_fill_len(ring@, cut@, d, e, 0, k - 1);
    }
    out
}

/// The tet over the side `(a, b)` of a 2-3 flip's shared face and the new
/// edge `(d, e)`: `(a, b, d, e)` if positively oriented, else
/// `(b, a, d, e)` if that is, else none.
pub open spec fn flip23_tet<F: Fn(usize, usize, usize, usize) -> Sign>(o: F, a: usize, b: usize, d: usize, e: usize) -> Option<
    [usize; 4],
> {
    if orient_sign(o, a, b, d, e) == Sign::Positive {
        Some([a, b, d, e])
    } else if orient_sign(o, b, a, d, e) == Sign::Positive {
        Some([b, a, d, e])
    } else {
        None
    }
}

fn flip23_tet_of<F: Fn(usize, usize, usize, usize) -> Sign>(o: &F, a: usize, b: usize, d: usize, e: usize) -> (r: Option<
    [usize; 4],
>)
    requires
        is_orient_oracle(*o),
    ensures
        r == flip23_tet(*o, a, b, d, e),
{
    if orient_of(o, a, b, d, e) == Sign::Positive {
        Some([a, b, d, e])
    } else if orient_of(o, b, a, d, e) == Sign::Positive {
        Some([b, a, d, e])
    } else {
        None
    }
}

/// The new edge `d-e` crosses the interior of face `f`: `(d, e)` turns
/// the same strict way around all three sides of `f`.
pub open spec fn edge_crosses_face<F: Fn(usize, usize, usize, usize) -> Sign>(o: F, f: [usize; 3], d: usize, e: usize) -> bool {
    let s0 = orient_sign(o, f[0], f[1], d, e);
    &&& s0 != Sign::Zero
    &&& s0 == orient_sign(o, f[1], f[2], d, e)
    &&& s0 == orient_sign(o, f[2], f[0], d, e)
}

/// The three tets of the 2-3 flip that replaces the two tets on face `f`
/// (apexes `d` and `e`) by the tets around the new edge `d-e`, one per side
/// of `f`, each positively oriented. `None` when `d-e` does not cross the
/// interior of `f` (the new tets would not tile the old pair) or a side has
/// no positive tet.
pub fn flip23_tets<F: Fn(usize, usize, usize, usize) -> Sign>(o: &F, f: [usize; 3], d: usize, e: usize) -> (r: Option<
    [[usize; 4]; 3],
>)
    requires
        is_orient_oracle(*o),
    ensures
        r == if edge_crosses_face(*o, f, d, e) {
            match (flip23_tet(*o, f[0], f[1], d, e), flip23_tet(*o, f[1], f[2], d, e), flip23_tet(*o, f[2], f[0], d, e)) {
                (Some(t1), Some(t2), Some(t3)) => Some([t1, t2, t3]),
                _ => None,
            }
        } else {
            None
        },
{
    let s0 = orient_of(o, f[0], f[1], d, e);
    let s1 = orient_of(o, f[1], f[2], d, e);
    let s2 = orient_of(o, f[2], f[0], d, e);
    if s0 == Sign::Zero || s0 != s1 || s1 != s2 {
        return None;
    }
    let n1 = flip23_tet_of(o, f[0], f[1], d, e);
    let n2 = flip23_tet_of(o, f[1], f[2], d, e);
    let n3 = flip23_tet_of(o, f[2], f[0], d, e);
    match (n1, n2, n3) {
        (Some(t1), Some(t2), Some(t3)) => Some([t1, t2, t3]),
        _ => None,
    }
}

} // verus!
