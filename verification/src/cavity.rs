//! Point location and Bowyer-Watson cavity growth on the tet slab. The new
//! point is seen only through exact-predicate oracles: the orientation of a
//! face against it, whether a tet's circumsphere strictly contains it, and
//! whether a tet has a vertex too close to it.
use crate::delaunay::{cavity_boundary_upto, face_is_open, lemma_boundary_upto_members, TetSlab, NONE};
use crate::recover::Sign;
use crate::topology::{face, oriented_face_of};
use vstd::prelude::*;

verus! {

broadcast use vstd::array::group_array_axioms;

/// What the visibility oracle `s` answers for face `(a, b, c)`: the
/// orientation of the new point against the face.
pub open spec fn sees_sign<S: Fn(u32, u32, u32) -> Sign>(s: S, a: u32, b: u32, c: u32) -> Sign {
    choose|r: Sign| call_ensures(s, (a, b, c), r)
}

/// `s` answers every face, and always the same way.
pub open spec fn is_sees_oracle<S: Fn(u32, u32, u32) -> Sign>(s: S) -> bool {
    &&& forall|a: u32, b: u32, c: u32| #[trigger] call_requires(s, (a, b, c))
    &&& forall|a: u32, b: u32, c: u32, r: Sign, q: Sign|
        #[trigger] call_ensures(s, (a, b, c), r) && #[trigger] call_ensures(s, (a, b, c), q) ==> r == q
}

fn sees_of<S: Fn(u32, u32, u32) -> Sign>(s: &S, f: [u32; 3]) -> (r: Sign)
    requires
        is_sees_oracle(*s),
    ensures
        r == sees_sign(*s, f[0], f[1], f[2]),
{
    s(f[0], f[1], f[2])
}

/// How face `i` of tet `t` (wound outward-in, see [`oriented_face_of`])
/// sees the new point.
pub open spec fn face_sees<S: Fn(u32, u32, u32) -> Sign>(s: S, t: [u32; 4], i: int) -> Sign {
    let f = oriented_face_of(t, i);
    sees_sign(s, f[0], f[1], f[2])
}

/// Tet `t` encloses the new point: no face sees it negatively.
pub open spec fn encloses<S: Fn(u32, u32, u32) -> Sign>(s: S, t: [u32; 4]) -> bool {
    forall|i: int| 0 <= i < 4 ==> #[trigger] face_sees(s, t, i) != Sign::Negative
}

/// A live slot of the slab encloses the new point.
pub open spec fn live_encloses<S: Fn(u32, u32, u32) -> Sign>(slab: TetSlab, s: S, t: int) -> bool {
    0 <= t < slab.tets@.len() && slab.alive@[t] && encloses(s, slab.tets@[t])
}

/// What the in-sphere oracle `g` answers for tet `t`: whether the new point
/// lies strictly inside its circumsphere (`Positive`).
pub open spec fn ins_sign<G: Fn([u32; 4]) -> Sign>(g: G, t: [u32; 4]) -> Sign {
    choose|r: Sign| call_ensures(g, (t,), r)
}

/// `g` answers every tet, and always the same way.
pub open spec fn is_ins_oracle<G: Fn([u32; 4]) -> Sign>(g: G) -> bool {
    &&& forall|t: [u32; 4]| #[trigger] call_requires(g, (t,))
    &&& forall|t: [u32; 4], r: Sign, q: Sign| #[trigger] call_ensures(g, (t,), r) && #[trigger] call_ensures(g, (t,), q) ==> r == q
}

fn ins_of<G: Fn([u32; 4]) -> Sign>(g: &G, t: [u32; 4]) -> (r: Sign)
    requires
        is_ins_oracle(*g),
    ensures
        r == ins_sign(*g, t),
{
    g(t)
}

/// What the proximity oracle `c` answers for tet `t`: whether one of its
/// inserted vertices lies too close to the new point.
pub open spec fn close_says<C: Fn([u32; 4]) -> bool>(c: C, t: [u32; 4]) -> bool {
    choose|r: bool| call_ensures(c, (t,), r)
}

/// `c` answers every tet, and always the same way.
pub open spec fn is_close_oracle<C: Fn([u32; 4]) -> bool>(c: C) -> bool {
    &&& forall|t: [u32; 4]| #[trigger] call_requires(c, (t,))
    &&& forall|t: [u32; 4], r: bool, q: bool| #[trigger] call_ensures(c, (t,), r) && #[trigger] call_ensures(c, (t,), q) ==> r == q
}

fn close_of<C: Fn([u32; 4]) -> bool>(c: &C, t: [u32; 4]) -> (r: bool)
    requires
        is_close_oracle(*c),
    ensures
        r == close_says(*c, t),
{
    c(t)
}

/// Outcome of growing a Bowyer-Watson cavity.
pub enum CavityGrowth {
    /// The cavity's tets, starting with the enclosing tet.
    Grown(Vec<u32>),
    /// A tet the cavity would take has a vertex too close to the new point,
    /// or the strict in-sphere region outgrew the size cap.
    Refused,
    /// Star-shape repair needed a tet across a hull face.
    HullReached,
}

/// Slot `x` is a face neighbor of slot `y` across face `i`.
pub open spec fn across_face(neighbors: Seq<[u32; 4]>, y: u32, i: int, x: u32) -> bool {
    0 <= i < 4 && neighbors[y as int][i] == x && x != NONE
}

/// Entry `k` of `c` lies across a face of an earlier entry.
pub open spec fn reached(neighbors: Seq<[u32; 4]>, c: Seq<u32>, k: int) -> bool {
    exists|h: int, i: int| 0 <= h < k && #[trigger] across_face(neighbors, c[h], i, c[k])
}

/// Every entry after the first neighbors an earlier one.
#[verifier::opaque]
pub open spec fn grown_by_faces(neighbors: Seq<[u32; 4]>, c: Seq<u32>) -> bool {
    forall|k: int| 0 < k < c.len() ==> #[trigger] reached(neighbors, c, k)
}

/// Face `i` of entry `k` of `c` leads into `c` or sees the new point
/// strictly.
pub open spec fn face_ok<S: Fn(u32, u32, u32) -> Sign>(
    tets: Seq<[u32; 4]>,
    neighbors: Seq<[u32; 4]>,
    s: S,
    c: Seq<u32>,
    k: int,
    i: int,
) -> bool {
    (neighbors[c[k] as int][i] == NONE || !c.contains(neighbors[c[k] as int][i])) ==> face_sees(s, tets[c[k] as int], i)
        == Sign::Positive
}

/// Every face of the entries before `upto` leads into `c` or sees the new
/// point strictly.
#[verifier::opaque]
pub open spec fn star_upto<S: Fn(u32, u32, u32) -> Sign>(
    tets: Seq<[u32; 4]>,
    neighbors: Seq<[u32; 4]>,
    s: S,
    c: Seq<u32>,
    upto: int,
) -> bool {
    forall|k: int, i: int| 0 <= k < upto && 0 <= i < 4 ==> #[trigger] face_ok(tets, neighbors, s, c, k, i)
}

/// A neighbor of entry `k` whose circumsphere strictly contains the new
/// point is in `c`.
pub open spec fn violator_taken<G: Fn([u32; 4]) -> Sign>(
    tets: Seq<[u32; 4]>,
    neighbors: Seq<[u32; 4]>,
    g: G,
    c: Seq<u32>,
    k: int,
    i: int,
) -> bool {
    neighbors[c[k] as int][i] != NONE && ins_sign(g, tets[neighbors[c[k] as int][i] as int]) == Sign::Positive
        ==> c.contains(neighbors[c[k] as int][i])
}

/// Every neighbor of the entries before `upto` whose circumsphere strictly
/// contains the new point is in `c`.
#[verifier::opaque]
pub open spec fn delaunay_closed_upto<G: Fn([u32; 4]) -> Sign>(
    tets: Seq<[u32; 4]>,
    neighbors: Seq<[u32; 4]>,
    g: G,
    c: Seq<u32>,
    upto: int,
) -> bool {
    forall|k: int, i: int| 0 <= k < upto && 0 <= i < 4 ==> #[trigger] violator_taken(tets, neighbors, g, c, k, i)
}

/// Entries `1..m` of `c` are in-sphere violators.
#[verifier::opaque]
pub open spec fn violators_upto<G: Fn([u32; 4]) -> Sign>(tets: Seq<[u32; 4]>, g: G, c: Seq<u32>, m: int) -> bool {
    forall|k: int| 1 <= k < m ==> ins_sign(g, tets[#[trigger] c[k] as int]) == Sign::Positive
}

/// Slot `x` lies across face `i` of slot `y`, a face that does not see the
/// new point strictly.
pub open spec fn repair_step<S: Fn(u32, u32, u32) -> Sign>(
    tets: Seq<[u32; 4]>,
    neighbors: Seq<[u32; 4]>,
    s: S,
    y: u32,
    i: int,
    x: u32,
) -> bool {
    across_face(neighbors, y, i, x) && face_sees(s, tets[y as int], i) != Sign::Positive
}

/// Entry `k` of `c` lies across a face of an earlier entry that does not
/// see the new point strictly.
pub open spec fn repair_reached<S: Fn(u32, u32, u32) -> Sign>(
    tets: Seq<[u32; 4]>,
    neighbors: Seq<[u32; 4]>,
    s: S,
    c: Seq<u32>,
    k: int,
) -> bool {
    exists|h: int, i: int| 0 <= h < k && #[trigger] repair_step(tets, neighbors, s, c[h], i, c[k])
}

/// Every entry from `m` on was reached through a face of an earlier entry
/// that does not see the new point strictly.
#[verifier::opaque]
pub open spec fn repaired_from<S: Fn(u32, u32, u32) -> Sign>(
    tets: Seq<[u32; 4]>,
    neighbors: Seq<[u32; 4]>,
    s: S,
    c: Seq<u32>,
    m: int,
) -> bool {
    forall|k: int| m <= k < c.len() ==> #[trigger] repair_reached(tets, neighbors, s, c, k)
}

/// The shape of a grown cavity: the in-sphere part `c[..m]` (the start,
/// then violating tets reached through faces, closed under violating
/// neighbors), then the star-shape repair part `c[m..]`, each entry reached
/// through a face of an earlier entry that does not see the point strictly.
pub open spec fn cavity_phases<G: Fn([u32; 4]) -> Sign, S: Fn(u32, u32, u32) -> Sign>(
    tets: Seq<[u32; 4]>,
    neighbors: Seq<[u32; 4]>,
    g: G,
    s: S,
    c: Seq<u32>,
    m: int,
) -> bool {
    &&& 1 <= m <= c.len()
    &&& violators_upto(tets, g, c, m)
    &&& delaunay_closed_upto(tets, neighbors, g, c, m)
    &&& repaired_from(tets, neighbors, s, c, m)
}

/// `c.push(x)` keeps every membership of `c`.
proof fn lemma_push_contains(c: Seq<u32>, x: u32, y: u32)
    ensures
        c.contains(y) ==> c.push(x).contains(y),
        c.push(x).contains(x),
        c.push(x).contains(y) && y != x ==> c.contains(y),
{
    if c.contains(y) {
        let w = choose|w: int| 0 <= w < c.len() && c[w] == y;
        assert(c.push(x)[w] == y);
    }
    assert(c.push(x)[c.len() as int] == x);
    if c.push(x).contains(y) && y != x {
        let w = choose|w: int| 0 <= w < c.len() + 1 && c.push(x)[w] == y;
        assert(c[w] == y);
    }
}

/// Pushing a slot reached through face `i` of entry `h` keeps the list
/// grown by faces.
proof fn lemma_grown_push(neighbors: Seq<[u32; 4]>, c: Seq<u32>, h: int, i: int, x: u32)
    requires
        grown_by_faces(neighbors, c),
        0 <= h < c.len(),
        across_face(neighbors, c[h], i, x),
    ensures
        grown_by_faces(neighbors, c.push(x)),
{
    reveal(grown_by_faces);
    let d = c.push(x);
    assert forall|k: int| 0 < k < d.len() implies #[trigger] reached(neighbors, d, k) by {
        if k < c.len() {
            assert(reached(neighbors, c, k));
            let (h2, i2) = choose|h2: int, i2: int| 0 <= h2 < k && #[trigger] across_face(neighbors, c[h2], i2, c[k]);
            assert(d[h2] == c[h2] && d[k] == c[k]);
            assert(across_face(neighbors, d[h2], i2, d[k]));
        } else {
            assert(d[h] == c[h]);
            assert(across_face(neighbors, d[h], i, d[k]));
        }
    }
}

/// Pushing keeps every violator already taken.
proof fn lemma_closed_push<G: Fn([u32; 4]) -> Sign>(
    tets: Seq<[u32; 4]>,
    neighbors: Seq<[u32; 4]>,
    g: G,
    c: Seq<u32>,
    upto: int,
    x: u32,
)
    requires
        delaunay_closed_upto(tets, neighbors, g, c, upto),
        upto <= c.len(),
    ensures
        delaunay_closed_upto(tets, neighbors, g, c.push(x), upto),
{
    reveal(delaunay_closed_upto);
    let d = c.push(x);
    assert forall|k: int, i: int| 0 <= k < upto && 0 <= i < 4 implies #[trigger] violator_taken(tets, neighbors, g, d, k, i) by {
        assert(violator_taken(tets, neighbors, g, c, k, i));
        assert(d[k] == c[k]);
        lemma_push_contains(c, x, neighbors[c[k] as int][i]);
    }
}

/// Pushing keeps every face already checked in order.
proof fn lemma_star_push<S: Fn(u32, u32, u32) -> Sign>(
    tets: Seq<[u32; 4]>,
    neighbors: Seq<[u32; 4]>,
    s: S,
    c: Seq<u32>,
    upto: int,
    x: u32,
)
    requires
        star_upto(tets, neighbors, s, c, upto),
        upto <= c.len(),
    ensures
        star_upto(tets, neighbors, s, c.push(x), upto),
{
    reveal(star_upto);
    let d = c.push(x);
    assert forall|k: int, i: int| 0 <= k < upto && 0 <= i < 4 implies #[trigger] face_ok(tets, neighbors, s, d, k, i) by {
        assert(face_ok(tets, neighbors, s, c, k, i));
        assert(d[k] == c[k]);
        lemma_push_contains(c, x, neighbors[c[k] as int][i]);
    }
}

/// Pushing a violator keeps the violator prefix when it grows with the list.
proof fn lemma_violators_push<G: Fn([u32; 4]) -> Sign>(tets: Seq<[u32; 4]>, g: G, c: Seq<u32>, m: int, x: u32)
    requires
        violators_upto(tets, g, c, m),
        m <= c.len(),
    ensures
        violators_upto(tets, g, c.push(x), m),
        ins_sign(g, tets[x as int]) == Sign::Positive && m == c.len() ==> violators_upto(tets, g, c.push(x), m + 1),
{
    reveal(violators_upto);
    let d = c.push(x);
    assert forall|k: int| 1 <= k < m implies ins_sign(g, tets[#[trigger] d[k] as int]) == Sign::Positive by {
        assert(d[k] == c[k]);
    }
    if ins_sign(g, tets[x as int]) == Sign::Positive && m == c.len() {
        assert forall|k: int| 1 <= k < m + 1 implies ins_sign(g, tets[#[trigger] d[k] as int]) == Sign::Positive by {
            if k < m {
                assert(d[k] == c[k]);
            } else {
                assert(d[k] == x);
            }
        }
    }
}

/// Pushing a slot reached through a face of entry `h` that does not see the
/// point strictly keeps the repair part well reached.
proof fn lemma_repaired_push<S: Fn(u32, u32, u32) -> Sign>(
    tets: Seq<[u32; 4]>,
    neighbors: Seq<[u32; 4]>,
    s: S,
    c: Seq<u32>,
    m: int,
    h: int,
    i: int,
    x: u32,
)
    requires
        repaired_from(tets, neighbors, s, c, m),
        0 <= h < c.len(),
        repair_step(tets, neighbors, s, c[h], i, x),
    ensures
        repaired_from(tets, neighbors, s, c.push(x), m),
{
    reveal(repaired_from);
    let d = c.push(x);
    assert forall|k: int| m <= k < d.len() implies #[trigger] repair_reached(tets, neighbors, s, d, k) by {
        if k < c.len() {
            assert(repair_reached(tets, neighbors, s, c, k));
            let (h2, i2) = choose|h2: int, i2: int| 0 <= h2 < k && #[trigger] repair_step(tets, neighbors, s, c[h2], i2, c[k]);
            assert(d[h2] == c[h2] && d[k] == c[k]);
            assert(repair_step(tets, neighbors, s, d[h2], i2, d[k]));
        } else {
            assert(d[h] == c[h]);
            assert(repair_step(tets, neighbors, s, d[h], i, d[k]));
        }
    }
}

/// One step of the visibility walk from a tet.
pub enum WalkStep {
    /// No face sees the point negatively: the tet encloses it.
    Stay,
    /// Cross the first negative face that does not lead back.
    Move(u32),
    /// The walk is stuck (a negative hull face, or only the way back is
    /// negative): fall back to a scan.
    Scan,
}

impl TetSlab {
    /// The first live slot whose tet encloses the new point, by a linear
    /// scan; `None` if no live tet does.
    pub fn locate_scan<S: Fn(u32, u32, u32) -> Sign>(&self, s: &S) -> (r: Option<u32>)
        requires
            self.wf(),
            is_sees_oracle(*s),
        ensures
            match r {
                Some(t) => live_encloses(*self, *s, t as int) && forall|u: int| 0 <= u < t ==> !live_encloses(*self, *s, u),
                None => forall|u: int| 0 <= u < self.tets@.len() ==> !live_encloses(*self, *s, u),
            },
    {
        let mut ti: usize = 0;
        while ti < self.tets.len()
            invariant
                self.wf(),
                is_sees_oracle(*s),
                ti <= self.tets@.len(),
                forall|u: int| 0 <= u < ti ==> !live_encloses(*self, *s, u),
            decreases self.tets@.len() - ti,
        {
            if self.alive[ti] {
                let t = self.tets[ti];
                let mut i: usize = 0;
                let mut all = true;
                while i < 4
                    invariant
                        is_sees_oracle(*s),
                        i <= 4,
                        all ==> forall|j: int| 0 <= j < i ==> #[trigger] face_sees(*s, t, j) != Sign::Negative,
                        !all ==> exists|j: int| 0 <= j < 4 && #[trigger] face_sees(*s, t, j) == Sign::Negative,
                    decreases 4 - i,
                {
                    let f = face(t, i);
                    if sees_of(s, f) == Sign::Negative {
                        proof {
                            assert(face_sees(*s, t, i as int) == Sign::Negative);
                        }
                        all = false;
                    }
                    i += 1;
                }
                if all {
                    proof {
                        assert(self.tets.len() <= NONE);
                    }
                    return Some(ti as u32);
                }
            }
            ti += 1;
        }
        None
    }

    /// One step of the visibility walk at slot `cur`, having come from
    /// `prev`: `Stay` if no face sees the point negatively; else `Move`
    /// across the first negative face whose neighbor is not `prev`; `Scan`
    /// if a negative face lies on the hull first, or only `prev` is behind a
    /// negative face.
    pub fn walk_step<S: Fn(u32, u32, u32) -> Sign>(&self, cur: u32, prev: u32, s: &S) -> (r: WalkStep)
        requires
            self.wf(),
            cur < self.tets@.len(),
            is_sees_oracle(*s),
        ensures
            r is Stay ==> encloses(*s, self.tets@[cur as int]),
            r is Scan ==> exists|i: int|
                0 <= i < 4 && #[trigger] face_sees(*s, self.tets@[cur as int], i) == Sign::Negative && (
                self.neighbors@[cur as int][i] == NONE || self.neighbors@[cur as int][i] == prev),
            r matches WalkStep::Move(nb) ==> nb < self.tets@.len() && nb != prev && exists|i: int|
                0 <= i < 4 && self.neighbors@[cur as int][i] == nb && #[trigger] face_sees(*s, self.tets@[cur as int], i)
                    == Sign::Negative,
    {
        let t = self.tets[cur as usize];
        let nbs = self.neighbors[cur as usize];
        proof {
            assert(forall|i: int| 0 <= i < 4 ==> nbs[i] == NONE || nbs[i] < self.tets@.len());
        }
        let mut fallback = false;
        let mut i: usize = 0;
        while i < 4
            invariant
                is_sees_oracle(*s),
                i <= 4,
                t == self.tets@[cur as int],
                nbs == self.neighbors@[cur as int],
                forall|j: int| 0 <= j < 4 ==> nbs[j] == NONE || nbs[j] < self.tets@.len(),
                !fallback ==> forall|j: int| 0 <= j < i ==> #[trigger] face_sees(*s, t, j) != Sign::Negative,
                fallback ==> exists|j: int| 0 <= j < 4 && #[trigger] face_sees(*s, t, j) == Sign::Negative && nbs[j] == prev,
            decreases 4 - i,
        {
            let f = face(t, i);
            if sees_of(s, f) == Sign::Negative {
                proof {
                    assert(face_sees(*s, t, i as int) == Sign::Negative);
                }
                let nb = nbs[i];
                if nb == NONE {
                    return WalkStep::Scan;
                }
                if nb != prev {
                    return WalkStep::Move(nb);
                }
                fallback = true;
                proof {
                    assert(face_sees(*s, t, i as int) == Sign::Negative && nbs[i as int] == prev);
                }
            }
            i += 1;
        }
        if fallback {
            WalkStep::Scan
        } else {
            WalkStep::Stay
        }
    }

    /// A slot whose tet encloses the new point: the visibility walk from the
    /// walk hint `last`, falling back to a scan when the hint is not a live
    /// slot, the walk gets stuck, or it runs more steps than there are
    /// slots (plus a margin); `None` when no live tet encloses the point.
    pub fn locate<S: Fn(u32, u32, u32) -> Sign>(&self, s: &S) -> (r: Option<u32>)
        requires
            self.wf(),
            is_sees_oracle(*s),
        ensures
            match r {
                Some(t) => t < self.tets@.len() && encloses(*s, self.tets@[t as int]),
                None => forall|u: int| 0 <= u < self.tets@.len() ==> !live_encloses(*self, *s, u),
            },
    {
        let mut cur = self.last;
        if cur as usize >= self.tets.len() || !self.alive[cur as usize] {
            return self.locate_scan(s);
        }
        let mut prev = NONE;
        let mut steps: u64 = 0;
        let n = self.tets.len();
        loop
            invariant
                self.wf(),
                is_sees_oracle(*s),
                n == self.tets@.len(),
                cur < n,
                steps <= n + 64,
            decreases n + 64 - steps,
        {
            if steps >= 64 && steps - 64 >= n as u64 {
                return self.locate_scan(s);
            }
            steps += 1;
            match self.walk_step(cur, prev, s) {
                WalkStep::Stay => {
                    return Some(cur);
                },
                WalkStep::Move(nb) => {
                    prev = cur;
                    cur = nb;
                },
                WalkStep::Scan => {
                    return self.locate_scan(s);
                },
            }
        }
    }
}

/// Distinct slots below `n` number at most `n`.
proof fn lemma_distinct_below(s: Seq<u32>, n: int)
    requires
        0 <= n,
        s.no_duplicates(),
        forall|k: int| 0 <= k < s.len() ==> (#[trigger] s[k]) < n,
    ensures
        s.len() <= n,
{
    let m = s.map_values(|x: u32| x as int);
    assert(m.no_duplicates()) by {
        assert forall|a: int, b: int| 0 <= a < m.len() && 0 <= b < m.len() && a != b implies m[a] != m[b] by {
            assert(s[a] != s[b]);
        }
    }
    m.unique_seq_to_set();
    vstd::set_lib::lemma_int_range(0, n);
    assert(m.to_set().subset_of(vstd::set_lib::set_int_range(0, n))) by {
        assert forall|x: int| m.to_set().contains(x) implies vstd::set_lib::set_int_range(0, n).contains(x) by {
            let k = choose|k: int| 0 <= k < m.len() && m[k] == x;
            assert(s[k] < n);
        }
    }
    vstd::set_lib::lemma_len_subset(m.to_set(), vstd::set_lib::set_int_range(0, n));
}

/// The slab's marks agree with membership in `c` for epoch `epoch`, and
/// every other mark is as it was.
#[verifier::opaque]
pub open spec fn marks_track(mark: Seq<u32>, m0: Seq<u32>, epoch: u32, c: Seq<u32>) -> bool {
    &&& mark.len() == m0.len()
    &&& mark.len() <= NONE
    &&& forall|x: int| 0 <= x < mark.len() ==> (#[trigger] mark[x] == epoch <==> c.contains(x as u32))
    &&& forall|x: int| 0 <= x < mark.len() && #[trigger] mark[x] != epoch ==> mark[x] == m0[x]
}

/// Every entry of `c` is a slot whose tet has no vertex too close to the
/// new point.
#[verifier::opaque]
pub open spec fn members_ok<C: Fn([u32; 4]) -> bool>(tets: Seq<[u32; 4]>, close: C, c: Seq<u32>) -> bool {
    forall|k: int| 0 <= k < c.len() ==> (#[trigger] c[k]) < tets.len() && !close_says(close, tets[c[k] as int])
}

proof fn lemma_members_push<C: Fn([u32; 4]) -> bool>(tets: Seq<[u32; 4]>, close: C, c: Seq<u32>, x: u32)
    requires
        members_ok(tets, close, c),
        x < tets.len(),
        !close_says(close, tets[x as int]),
    ensures
        members_ok(tets, close, c.push(x)),
{
    reveal(members_ok);
    assert forall|k: int| 0 <= k < c.len() + 1 implies (#[trigger] c.push(x)[k]) < tets.len() && !close_says(
        close,
        tets[c.push(x)[k] as int],
    ) by {
        if k < c.len() {
            assert(c.push(x)[k] == c[k]);
        }
    }
}

proof fn lemma_members_at<C: Fn([u32; 4]) -> bool>(tets: Seq<[u32; 4]>, close: C, c: Seq<u32>, k: int)
    requires
        members_ok(tets, close, c),
        0 <= k < c.len(),
    ensures
        c[k] < tets.len(),
        !close_says(close, tets[c[k] as int]),
{
    reveal(members_ok);
}

/// What a mark says of membership.
proof fn lemma_mark_at(mark: Seq<u32>, m0: Seq<u32>, epoch: u32, c: Seq<u32>, x: int)
    requires
        marks_track(mark, m0, epoch, c),
        0 <= x < mark.len(),
    ensures
        mark[x] == epoch <==> c.contains(x as u32),
        mark[x] != epoch ==> mark[x] == m0[x],
{
    reveal(marks_track);
}

/// Marking a fresh slot keeps the marks tracking the pushed list.
proof fn lemma_mark_push(mark: Seq<u32>, m0: Seq<u32>, epoch: u32, c: Seq<u32>, nb: u32)
    requires
        marks_track(mark, m0, epoch, c),
        nb < mark.len(),
        mark[nb as int] != epoch,
    ensures
        marks_track(mark.update(nb as int, epoch), m0, epoch, c.push(nb)),
        !c.contains(nb),
        c.no_duplicates() ==> c.push(nb).no_duplicates(),
{
    reveal(marks_track);
    let m1 = mark.update(nb as int, epoch);
    assert forall|x: int| 0 <= x < m1.len() implies (#[trigger] m1[x] == epoch <==> c.push(nb).contains(x as u32)) by {
        lemma_push_contains(c, nb, x as u32);
        if x != nb as int {
            assert(x as u32 != nb);
        }
    }
    assert(!c.contains(nb));
    if c.no_duplicates() {
        assert forall|a: int, b: int| 0 <= a < c.len() + 1 && 0 <= b < c.len() + 1 && a != b implies c.push(nb)[a] != c.push(
            nb,
        )[b] by {
            if a < c.len() && b < c.len() {
            } else if a < c.len() {
                assert(c.contains(c[a]));
            } else {
                assert(c.contains(c[b]));
            }
        }
    }
}

/// Face `j` of entry `k` stays fine when the list grows.
proof fn lemma_face_ok_push<S: Fn(u32, u32, u32) -> Sign>(
    tets: Seq<[u32; 4]>,
    neighbors: Seq<[u32; 4]>,
    s: S,
    c: Seq<u32>,
    k: int,
    j: int,
    x: u32,
)
    requires
        face_ok(tets, neighbors, s, c, k, j),
        0 <= k < c.len(),
    ensures
        face_ok(tets, neighbors, s, c.push(x), k, j),
{
    assert(c.push(x)[k] == c[k]);
    lemma_push_contains(c, x, neighbors[c[k] as int][j]);
}

/// Checking every face of entry `upto` extends the checked prefix.
proof fn lemma_star_extend<S: Fn(u32, u32, u32) -> Sign>(
    tets: Seq<[u32; 4]>,
    neighbors: Seq<[u32; 4]>,
    s: S,
    c: Seq<u32>,
    upto: int,
)
    requires
        star_upto(tets, neighbors, s, c, upto),
        0 <= upto,
        forall|j: int| 0 <= j < 4 ==> #[trigger] face_ok(tets, neighbors, s, c, upto, j),
    ensures
        star_upto(tets, neighbors, s, c, upto + 1),
{
    reveal(star_upto);
}

/// Checking every neighbor of entry `upto` extends the closed prefix.
proof fn lemma_closed_extend<G: Fn([u32; 4]) -> Sign>(
    tets: Seq<[u32; 4]>,
    neighbors: Seq<[u32; 4]>,
    g: G,
    c: Seq<u32>,
    upto: int,
)
    requires
        delaunay_closed_upto(tets, neighbors, g, c, upto),
        0 <= upto,
        forall|j: int| 0 <= j < 4 ==> #[trigger] violator_taken(tets, neighbors, g, c, upto, j),
    ensures
        delaunay_closed_upto(tets, neighbors, g, c, upto + 1),
{
    reveal(delaunay_closed_upto);
}

/// A violator taken stays taken when the list grows.
proof fn lemma_taken_push<G: Fn([u32; 4]) -> Sign>(
    tets: Seq<[u32; 4]>,
    neighbors: Seq<[u32; 4]>,
    g: G,
    c: Seq<u32>,
    k: int,
    j: int,
    x: u32,
)
    requires
        violator_taken(tets, neighbors, g, c, k, j),
        0 <= k < c.len(),
    ensures
        violator_taken(tets, neighbors, g, c.push(x), k, j),
{
    assert(c.push(x)[k] == c[k]);
    lemma_push_contains(c, x, neighbors[c[k] as int][j]);
}

/// The grounds of a refused cavity `c`: a tet across a face of one of its
/// entries has a vertex too close to the new point, or `c` reached the size
/// cap `max`.
pub open spec fn refusal_grounds<C: Fn([u32; 4]) -> bool>(
    tets: Seq<[u32; 4]>,
    neighbors: Seq<[u32; 4]>,
    close: C,
    c: Seq<u32>,
    max: usize,
) -> bool {
    ||| exists|h: int, i: int, x: u32|
        0 <= h < c.len() && #[trigger] across_face(neighbors, c[h], i, x) && x < tets.len() && close_says(
            close,
            tets[x as int],
        )
    ||| c.len() >= max
}

/// The slab is unchanged but for its marks.
pub open spec fn same_but_marks(a: TetSlab, b: TetSlab) -> bool {
    &&& a.tets@ == b.tets@
    &&& a.neighbors@ == b.neighbors@
    &&& a.alive@ == b.alive@
    &&& a.free@ == b.free@
    &&& a.last == b.last
    &&& a.new_tets@ == b.new_tets@
    &&& a.mark@.len() == b.mark@.len()
}

/// What checking the faces of one cavity tet came to.
enum Repair {
    Done(bool),
    Refused,
    HullReached,
}

impl TetSlab {
    /// Takes into the cavity every unmarked neighbor of entry `head` whose
    /// circumsphere strictly contains the new point; `false` (refused) on
    /// such a neighbor with a too-close vertex, or once the cavity holds
    /// `max_cavity` tets.
    fn take_violators<G: Fn([u32; 4]) -> Sign, C: Fn([u32; 4]) -> bool>(
        &mut self,
        cavity: &mut Vec<u32>,
        head: usize,
        epoch: u32,
        max_cavity: usize,
        ins: &G,
        too_close: &C,
        Ghost(m0): Ghost<Seq<u32>>,
    ) -> (ok: bool)
        requires
            old(self).wf(),
            is_ins_oracle(*ins),
            is_close_oracle(*too_close),
            head < old(cavity)@.len(),
            old(cavity)@.no_duplicates(),
            members_ok(old(self).tets@, *too_close, old(cavity)@),
            marks_track(old(self).mark@, m0, epoch, old(cavity)@),
            grown_by_faces(old(self).neighbors@, old(cavity)@),
            violators_upto(old(self).tets@, *ins, old(cavity)@, old(cavity)@.len() as int),
            delaunay_closed_upto(old(self).tets@, old(self).neighbors@, *ins, old(cavity)@, head as int),
        ensures
            final(self).wf(),
            same_but_marks(*final(self), *old(self)),
            final(cavity)@.len() >= old(cavity)@.len(),
            final(cavity)@.subrange(0, old(cavity)@.len() as int) == old(cavity)@,
            final(cavity)@.no_duplicates(),
            members_ok(old(self).tets@, *too_close, final(cavity)@),
            marks_track(final(self).mark@, m0, epoch, final(cavity)@),
            grown_by_faces(old(self).neighbors@, final(cavity)@),
            violators_upto(old(self).tets@, *ins, final(cavity)@, final(cavity)@.len() as int),
            ok ==> delaunay_closed_upto(old(self).tets@, old(self).neighbors@, *ins, final(cavity)@, head + 1),
            !ok ==> refusal_grounds(old(self).tets@, old(self).neighbors@, *too_close, final(cavity)@, max_cavity),
    {
        let ghost tt = self.tets@;
        let ghost nbs = self.neighbors@;
        let ghost c_in = cavity@;
        let ti = cavity[head];
        proof {
            lemma_members_at(tt, *too_close, cavity@, head as int);
        }
        let nbrow = self.neighbors[ti as usize];
        proof {
            assert(forall|j: int| 0 <= j < 4 ==> nbrow[j] == NONE || nbrow[j] < tt.len());
        }
        let mut i: usize = 0;
        while i < 4
            invariant
                self.wf(),
                same_but_marks(*self, *old(self)),
                tt == old(self).tets@,
                nbs == old(self).neighbors@,
                is_ins_oracle(*ins),
                is_close_oracle(*too_close),
                i <= 4,
                c_in == old(cavity)@,
                head < c_in.len(),
                ti == c_in[head as int],
                nbrow == nbs[ti as int],
                forall|j: int| 0 <= j < 4 ==> nbrow[j] == NONE || nbrow[j] < tt.len(),
                cavity@.len() >= c_in.len(),
                cavity@.subrange(0, c_in.len() as int) == c_in,
                cavity@.no_duplicates(),
                members_ok(tt, *too_close, cavity@),
                marks_track(self.mark@, m0, epoch, cavity@),
                grown_by_faces(nbs, cavity@),
                violators_upto(tt, *ins, cavity@, cavity@.len() as int),
                delaunay_closed_upto(tt, nbs, *ins, cavity@, head as int),
                forall|j: int| 0 <= j < i ==> #[trigger] violator_taken(tt, nbs, *ins, cavity@, head as int, j),
            decreases 4 - i,
        {
            let nb = nbrow[i];
            let ghost before = cavity@;
            proof {
                assert(before[head as int] == ti) by {
                    assert(before.subrange(0, c_in.len() as int)[head as int] == c_in[head as int]);
                }
            }
            let marked = nb != NONE && self.mark[nb as usize] == epoch;
            if nb != NONE && !marked {
                if ins_of(ins, self.tets[nb as usize]) == Sign::Positive {
                    if close_of(too_close, self.tets[nb as usize]) || cavity.len() >= max_cavity {
                        proof {
                            if cavity@.len() < max_cavity {
                                assert(across_face(nbs, cavity@[head as int], i as int, nb));
                            }
                        }
                        return false;
                    }
                    proof {
                        lemma_mark_push(self.mark@, m0, epoch, cavity@, nb);
                        lemma_members_push(tt, *too_close, cavity@, nb);
                        assert(across_face(nbs, before[head as int], i as int, nb));
                        lemma_grown_push(nbs, before, head as int, i as int, nb);
                        lemma_violators_push(tt, *ins, before, before.len() as int, nb);
                        lemma_closed_push(tt, nbs, *ins, before, head as int, nb);
                        assert forall|j: int| 0 <= j < i + 1 implies #[trigger] violator_taken(
                            tt,
                            nbs,
                            *ins,
                            before.push(nb),
                            head as int,
                            j,
                        ) by {
                            if j < i {
                                lemma_taken_push(tt, nbs, *ins, before, head as int, j, nb);
                            } else {
                                assert(before.push(nb)[head as int] == ti);
                                lemma_push_contains(before, nb, nb);
                            }
                        }
                    }
                    self.mark.set(nb as usize, epoch);
                    cavity.push(nb);
                    proof {
                        assert(cavity@ == before.push(nb));
                        assert(cavity@.subrange(0, c_in.len() as int) =~= before.subrange(0, c_in.len() as int));
                    }
                } else {
                    proof {
                        assert(violator_taken(tt, nbs, *ins, cavity@, head as int, i as int));
                    }
                }
            } else {
                proof {
                    if nb != NONE {
                        lemma_mark_at(self.mark@, m0, epoch, cavity@, nb as int);
                    }
                    assert(violator_taken(tt, nbs, *ins, cavity@, head as int, i as int));
                }
            }
            i += 1;
        }
        proof {
            lemma_closed_extend(tt, nbs, *ins, cavity@, head as int);
        }
        true
    }

    /// Star-shape repair at entry `idx`: every face of it that leads out of
    /// the cavity and does not see the new point strictly brings the tet
    /// behind it into the cavity (refused on a too-close tet; a hull face
    /// reports `HullReached`).
    fn repair_faces<G: Fn([u32; 4]) -> Sign, S: Fn(u32, u32, u32) -> Sign, C: Fn([u32; 4]) -> bool>(
        &mut self,
        cavity: &mut Vec<u32>,
        idx: usize,
        epoch: u32,
        s: &S,
        too_close: &C,
        Ghost(m0): Ghost<Seq<u32>>,
        Ghost(g): Ghost<G>,
        Ghost(m): Ghost<int>,
    ) -> (r: Repair)
        requires
            old(self).wf(),
            is_sees_oracle(*s),
            is_close_oracle(*too_close),
            idx < old(cavity)@.len(),
            old(cavity)@.no_duplicates(),
            members_ok(old(self).tets@, *too_close, old(cavity)@),
            marks_track(old(self).mark@, m0, epoch, old(cavity)@),
            grown_by_faces(old(self).neighbors@, old(cavity)@),
            cavity_phases(old(self).tets@, old(self).neighbors@, g, *s, old(cavity)@, m),
            star_upto(old(self).tets@, old(self).neighbors@, *s, old(cavity)@, idx as int),
        ensures
            final(self).wf(),
            same_but_marks(*final(self), *old(self)),
            final(cavity)@.len() >= old(cavity)@.len(),
            final(cavity)@.subrange(0, old(cavity)@.len() as int) == old(cavity)@,
            final(cavity)@.no_duplicates(),
            members_ok(old(self).tets@, *too_close, final(cavity)@),
            marks_track(final(self).mark@, m0, epoch, final(cavity)@),
            grown_by_faces(old(self).neighbors@, final(cavity)@),
            cavity_phases(old(self).tets@, old(self).neighbors@, g, *s, final(cavity)@, m),
            r matches Repair::Done(grew) ==> star_upto(
                old(self).tets@,
                old(self).neighbors@,
                *s,
                final(cavity)@,
                idx + 1,
            ) && (grew <==> final(cavity)@.len() > old(cavity)@.len()),
            r is Refused ==> refusal_grounds(old(self).tets@, old(self).neighbors@, *too_close, final(cavity)@, usize::MAX),
            r is HullReached ==> exists|i: int|
                0 <= i < 4 && old(self).neighbors@[old(cavity)@[idx as int] as int][i] == NONE && #[trigger] face_sees(
                    *s,
                    old(self).tets@[old(cavity)@[idx as int] as int],
                    i,
                ) != Sign::Positive,
    {
        let ghost tt = self.tets@;
        let ghost nbs = self.neighbors@;
        let ghost c_in = cavity@;
        let ti = cavity[idx];
        proof {
            lemma_members_at(tt, *too_close, cavity@, idx as int);
        }
        let t = self.tets[ti as usize];
        let nbrow = self.neighbors[ti as usize];
        proof {
            assert(forall|j: int| 0 <= j < 4 ==> nbrow[j] == NONE || nbrow[j] < tt.len());
        }
        let mut grew = false;
        let mut i: usize = 0;
        while i < 4
            invariant
                self.wf(),
                same_but_marks(*self, *old(self)),
                tt == old(self).tets@,
                nbs == old(self).neighbors@,
                is_sees_oracle(*s),
                is_close_oracle(*too_close),
                i <= 4,
                c_in == old(cavity)@,
                idx < c_in.len(),
                ti == c_in[idx as int],
                t == tt[ti as int],
                nbrow == nbs[ti as int],
                forall|j: int| 0 <= j < 4 ==> nbrow[j] == NONE || nbrow[j] < tt.len(),
                cavity@.len() >= c_in.len(),
                cavity@.subrange(0, c_in.len() as int) == c_in,
                grew <==> cavity@.len() > c_in.len(),
                cavity@.no_duplicates(),
                members_ok(tt, *too_close, cavity@),
                marks_track(self.mark@, m0, epoch, cavity@),
                grown_by_faces(nbs, cavity@),
                cavity_phases(tt, nbs, g, *s, cavity@, m),
                star_upto(tt, nbs, *s, cavity@, idx as int),
                forall|j: int| 0 <= j < i ==> #[trigger] face_ok(tt, nbs, *s, cavity@, idx as int, j),
            decreases 4 - i,
        {
            let nb = nbrow[i];
            let ghost before = cavity@;
            proof {
                assert(before[idx as int] == ti) by {
                    assert(before.subrange(0, c_in.len() as int)[idx as int] == c_in[idx as int]);
                }
            }
            let inside = nb != NONE && self.mark[nb as usize] == epoch;
            if !inside {
                let f = face(t, i);
                if sees_of(s, f) != Sign::Positive {
                    proof {
                        assert(face_sees(*s, t, i as int) != Sign::Positive);
                    }
                    if nb == NONE {
                        return Repair::HullReached;
                    }
                    if close_of(too_close, self.tets[nb as usize]) {
                        proof {
                            assert(across_face(nbs, cavity@[idx as int], i as int, nb));
                        }
                        return Repair::Refused;
                    }
                    proof {
                        lemma_mark_push(self.mark@, m0, epoch, cavity@, nb);
                        lemma_members_push(tt, *too_close, cavity@, nb);
                        assert(across_face(nbs, before[idx as int], i as int, nb));
                        lemma_grown_push(nbs, before, idx as int, i as int, nb);
                        lemma_violators_push(tt, g, before, m, nb);
                        lemma_closed_push(tt, nbs, g, before, m, nb);
                        assert(repair_step(tt, nbs, *s, before[idx as int], i as int, nb));
                        lemma_repaired_push(tt, nbs, *s, before, m, idx as int, i as int, nb);
                        lemma_star_push(tt, nbs, *s, before, idx as int, nb);
                        assert forall|j: int| 0 <= j < i + 1 implies #[trigger] face_ok(
                            tt,
                            nbs,
                            *s,
                            before.push(nb),
                            idx as int,
                            j,
                        ) by {
                            if j < i {
                                lemma_face_ok_push(tt, nbs, *s, before, idx as int, j, nb);
                            } else {
                                assert(before.push(nb)[idx as int] == ti);
                                lemma_push_contains(before, nb, nb);
                            }
                        }
                    }
                    self.mark.set(nb as usize, epoch);
                    cavity.push(nb);
                    grew = true;
                    proof {
                        assert(cavity@ == before.push(nb));
                        assert(cavity@.subrange(0, c_in.len() as int) =~= before.subrange(0, c_in.len() as int));
                    }
                } else {
                    proof {
                        assert(face_ok(tt, nbs, *s, cavity@, idx as int, i as int));
                    }
                }
            } else {
                proof {
                    lemma_mark_at(self.mark@, m0, epoch, cavity@, nb as int);
                    assert(face_ok(tt, nbs, *s, cavity@, idx as int, i as int));
                }
            }
            i += 1;
        }
        proof {
            lemma_star_extend(tt, nbs, *s, cavity@, idx as int);
        }
        Repair::Done(grew)
    }

    /// Grows the Bowyer-Watson cavity of the new point from the enclosing
    /// slot `start`, marking its tets with `epoch`: first breadth-first
    /// through faces to every tet whose circumsphere strictly contains the
    /// point (refused when such a tet has a vertex too close to the point,
    /// or when the cavity already holds `max_cavity` tets), then repeated
    /// passes of star-shape repair that absorb the tet across every face
    /// not seeing the point strictly (refused on a too-close tet; a hull
    /// face reports `HullReached`). A start tet with a too-close vertex is
    /// refused before anything is marked.
    pub fn grow_cavity<G: Fn([u32; 4]) -> Sign, S: Fn(u32, u32, u32) -> Sign, C: Fn([u32; 4]) -> bool>(
        &mut self,
        start: u32,
        epoch: u32,
        max_cavity: usize,
        ins: &G,
        s: &S,
        too_close: &C,
    ) -> (r: CavityGrowth)
        requires
            old(self).wf(),
            start < old(self).tets@.len(),
            forall|x: int| 0 <= x < old(self).mark@.len() ==> #[trigger] old(self).mark@[x] != epoch,
            is_ins_oracle(*ins),
            is_sees_oracle(*s),
            is_close_oracle(*too_close),
        ensures
            final(self).wf(),
            same_but_marks(*final(self), *old(self)),
            forall|x: int|
                0 <= x < old(self).mark@.len() && #[trigger] final(self).mark@[x] != epoch ==> final(self).mark@[x]
                    == old(self).mark@[x],
            close_says(*too_close, old(self).tets@[start as int]) ==> r is Refused,
            r is Refused ==> close_says(*too_close, old(self).tets@[start as int]) || exists|c: Seq<u32>|
                #[trigger] marks_track(final(self).mark@, old(self).mark@, epoch, c) && c.no_duplicates() && refusal_grounds(
                    old(self).tets@,
                    old(self).neighbors@,
                    *too_close,
                    c,
                    max_cavity,
                ),
            match r {
                CavityGrowth::Grown(c) => {
                    &&& c@.len() >= 1
                    &&& c@[0] == start
                    &&& c@.no_duplicates()
                    &&& members_ok(old(self).tets@, *too_close, c@)
                    &&& marks_track(final(self).mark@, old(self).mark@, epoch, c@)
                    &&& grown_by_faces(old(self).neighbors@, c@)
                    &&& star_upto(old(self).tets@, old(self).neighbors@, *s, c@, c@.len() as int)
                    &&& exists|m: int| cavity_phases(old(self).tets@, old(self).neighbors@, *ins, *s, c@, m)
                },
                CavityGrowth::Refused => true,
                CavityGrowth::HullReached => exists|x: int, i: int|
                    0 <= x < old(self).tets@.len() && 0 <= i < 4 && final(self).mark@[x] == epoch
                        && old(self).neighbors@[x][i] == NONE && #[trigger] face_sees(*s, old(self).tets@[x], i)
                        != Sign::Positive,
            },
    {
        let ghost tt = self.tets@;
        let ghost nbs = self.neighbors@;
        let ghost m0 = self.mark@;
        if close_of(too_close, self.tets[start as usize]) {
            return CavityGrowth::Refused;
        }
        let mut cavity: Vec<u32> = Vec::new();
        proof {
            reveal(marks_track);
            reveal(members_ok);
            reveal(grown_by_faces);
            reveal(violators_upto);
            reveal(delaunay_closed_upto);
            assert(marks_track(self.mark@, m0, epoch, cavity@));
            lemma_mark_push(self.mark@, m0, epoch, cavity@, start);
            lemma_members_push(tt, *too_close, cavity@, start);
        }
        cavity.push(start);
        self.mark.set(start as usize, epoch);
        proof {
            reveal(grown_by_faces);
            reveal(violators_upto);
            reveal(delaunay_closed_upto);
            assert(cavity@.no_duplicates());
            assert(grown_by_faces(nbs, cavity@));
            assert(violators_upto(tt, *ins, cavity@, 1));
            assert(delaunay_closed_upto(tt, nbs, *ins, cavity@, 0));
        }
        let mut head: usize = 0;
        while head < cavity.len()
            invariant
                self.wf(),
                same_but_marks(*self, *old(self)),
                tt == old(self).tets@,
                nbs == old(self).neighbors@,
                m0 == old(self).mark@,
                is_ins_oracle(*ins),
                is_close_oracle(*too_close),
                cavity@.len() >= 1,
                cavity@[0] == start,
                cavity@.no_duplicates(),
                members_ok(tt, *too_close, cavity@),
                marks_track(self.mark@, m0, epoch, cavity@),
                head <= cavity@.len(),
                grown_by_faces(nbs, cavity@),
                violators_upto(tt, *ins, cavity@, cavity@.len() as int),
                delaunay_closed_upto(tt, nbs, *ins, cavity@, head as int),
            decreases tt.len() - head,
        {
            proof {
                reveal(members_ok);
                lemma_distinct_below(cavity@, tt.len() as int);
            }
            let ghost before = cavity@;
            if !self.take_violators(&mut cavity, head, epoch, max_cavity, ins, too_close, Ghost(m0)) {
                proof {
                    assert(marks_track(self.mark@, m0, epoch, cavity@));
                    reveal(marks_track);
                }
                return CavityGrowth::Refused;
            }
            proof {
                assert(cavity@[0] == before.subrange(0, before.len() as int)[0]);
            }
            head += 1;
        }
        let ghost m = cavity@.len() as int;
        proof {
            reveal(repaired_from);
            assert(cavity_phases(tt, nbs, *ins, *s, cavity@, m));
        }
        let mut grew = true;
        while grew
            invariant
                self.wf(),
                same_but_marks(*self, *old(self)),
                tt == old(self).tets@,
                nbs == old(self).neighbors@,
                m0 == old(self).mark@,
                is_sees_oracle(*s),
                is_close_oracle(*too_close),
                cavity@.len() >= 1,
                cavity@[0] == start,
                cavity@.no_duplicates(),
                members_ok(tt, *too_close, cavity@),
                marks_track(self.mark@, m0, epoch, cavity@),
                grown_by_faces(nbs, cavity@),
                cavity_phases(tt, nbs, *ins, *s, cavity@, m),
                !grew ==> star_upto(tt, nbs, *s, cavity@, cavity@.len() as int),
            decreases tt.len() - cavity@.len() + if grew { 1int } else { 0int },
        {
            proof {
                reveal(members_ok);
                lemma_distinct_below(cavity@, tt.len() as int);
            }
            grew = false;
            let ghost c_start = cavity@.len();
            let mut idx: usize = 0;
            proof {
                reveal(star_upto);
            }
            while idx < cavity.len()
                invariant
                    self.wf(),
                    same_but_marks(*self, *old(self)),
                    tt == old(self).tets@,
                    nbs == old(self).neighbors@,
                    m0 == old(self).mark@,
                    is_sees_oracle(*s),
                    is_close_oracle(*too_close),
                    cavity@.len() >= 1,
                    cavity@[0] == start,
                    cavity@.no_duplicates(),
                    members_ok(tt, *too_close, cavity@),
                    marks_track(self.mark@, m0, epoch, cavity@),
                    grown_by_faces(nbs, cavity@),
                    cavity_phases(tt, nbs, *ins, *s, cavity@, m),
                    idx <= cavity@.len(),
                    cavity@.len() >= c_start,
                    grew <==> cavity@.len() > c_start,
                    star_upto(tt, nbs, *s, cavity@, idx as int),
                decreases (tt.len() - cavity@.len()) * 5 + cavity@.len() - idx,
            {
                proof {
                    reveal(members_ok);
                    lemma_distinct_below(cavity@, tt.len() as int);
                }
                let ghost before = cavity@;
                match self.repair_faces::<G, S, C>(&mut cavity, idx, epoch, s, too_close, Ghost(m0), Ghost(*ins), Ghost(m)) {
                    Repair::Done(g2) => {
                        if g2 {
                            grew = true;
                        }
                    },
                    Repair::Refused => {
                        proof {
                            assert(marks_track(self.mark@, m0, epoch, cavity@));
                            if !refusal_grounds(tt, nbs, *too_close, cavity@, max_cavity) {
                                let (h, i, x) = choose|h: int, i: int, x: u32|
                                    0 <= h < cavity@.len() && #[trigger] across_face(nbs, cavity@[h], i, x) && x < tt.len()
                                        && close_says(*too_close, tt[x as int]);
                                assert(false);
                            }
                            reveal(marks_track);
                        }
                        return CavityGrowth::Refused;
                    },
                    Repair::HullReached => {
                        proof {
                            let x = before[idx as int] as int;
                            lemma_members_at(tt, *too_close, before, idx as int);
                            lemma_push_contains(before, 0, before[idx as int]);
                            assert(cavity@.subrange(0, before.len() as int)[idx as int] == before[idx as int]);
                            assert(cavity@.contains(before[idx as int]));
                            lemma_mark_at(self.mark@, m0, epoch, cavity@, x);
                            let i = choose|i: int|
                                0 <= i < 4 && nbs[before[idx as int] as int][i] == NONE && #[trigger] face_sees(
                                    *s,
                                    tt[before[idx as int] as int],
                                    i,
                                ) != Sign::Positive;
                            assert(0 <= x < tt.len() && 0 <= i < 4 && self.mark@[x] == epoch && nbs[x][i] == NONE && face_sees(
                                *s,
                                tt[x],
                                i,
                            ) != Sign::Positive);
                            reveal(marks_track);
                        }
                        return CavityGrowth::HullReached;
                    },
                }
                proof {
                    assert(cavity@[0] == before.subrange(0, before.len() as int)[0]);
                    reveal(members_ok);
                    lemma_distinct_below(cavity@, tt.len() as int);
                }
                idx += 1;
            }
            proof {
                reveal(members_ok);
                lemma_distinct_below(cavity@, tt.len() as int);
            }
        }
        proof {
            reveal(marks_track);
        }
        CavityGrowth::Grown(cavity)
    }
}


/// Every boundary face of a grown cavity sees the new point strictly, so
/// the cones the re-fill builds over them are positively oriented.
pub proof fn lemma_grown_boundary_sees_point<S: Fn(u32, u32, u32) -> Sign>(
    tets: Seq<[u32; 4]>,
    nb: Seq<[u32; 4]>,
    mark: Seq<u32>,
    m0: Seq<u32>,
    epoch: u32,
    s: S,
    c: Seq<u32>,
)
    requires
        tets.len() == nb.len(),
        mark.len() == nb.len(),
        forall|t: int, i: int| 0 <= t < nb.len() && 0 <= i < 4 ==> #[trigger] nb[t][i] == NONE || nb[t][i] < nb.len(),
        forall|k: int| 0 <= k < c.len() ==> (#[trigger] c[k]) < nb.len(),
        marks_track(mark, m0, epoch, c),
        star_upto(tets, nb, s, c, c.len() as int),
    ensures
        forall|j: int|
            0 <= j < cavity_boundary_upto(nb, mark, c, epoch, c.len() as int).len() ==> #[trigger] face_sees(
                s,
                tets[cavity_boundary_upto(nb, mark, c, epoch, c.len() as int)[j].0 as int],
                cavity_boundary_upto(nb, mark, c, epoch, c.len() as int)[j].1 as int,
            ) == Sign::Positive,
{
    reveal(marks_track);
    reveal(star_upto);
    let bnd = cavity_boundary_upto(nb, mark, c, epoch, c.len() as int);
    lemma_boundary_upto_members(nb, mark, c, epoch, c.len() as int);
    assert forall|j: int| 0 <= j < bnd.len() implies #[trigger] face_sees(s, tets[bnd[j].0 as int], bnd[j].1 as int)
        == Sign::Positive by {
        assert(bnd.contains(bnd[j]));
        let m = choose|m: int|
            0 <= m < c.len() && bnd[j].0 == c[m] && bnd[j].1 < 4 && face_is_open(nb, mark, c[m], bnd[j].1 as int, epoch);
        let i = bnd[j].1 as int;
        let o = nb[c[m] as int][i];
        if o != NONE {
            assert(o < nb.len());
            assert(mark[o as int] != epoch);
            assert(!c.contains(o));
        }
        assert(face_ok(tets, nb, s, c, m, i));
    }
}

} // verus!
