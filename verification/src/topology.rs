//! Simplex bookkeeping shared by the mesher stages: the four faces of a tet
//! (unoriented and oriented), sorted edge and face keys, and the cyclic
//! comparison of oriented triangles.
use vstd::prelude::*;

verus! {

broadcast use vstd::array::group_array_axioms;

/// The four faces of a tet as local vertex-index triples; face `i` omits
/// vertex `i`.
pub const TET_FACES: [[usize; 3]; 4] = [[1, 2, 3], [0, 2, 3], [0, 1, 3], [0, 1, 2]];

/// Local slots of the oriented face opposite vertex `i` of a positively
/// oriented tet: wound so that vertex `i` lies on the positive side.
pub open spec fn face_slots(i: int) -> [int; 3] {
    if i == 0 {
        [1, 3, 2]
    } else if i == 1 {
        [0, 2, 3]
    } else if i == 2 {
        [0, 3, 1]
    } else {
        [0, 1, 2]
    }
}

/// Number of inversions of a 4-tuple of local slots.
pub open spec fn inversions4(p: [int; 4]) -> int {
    (if p[0] > p[1] { 1int } else { 0 }) + (if p[0] > p[2] { 1int } else { 0 }) + (if p[0]
        > p[3] { 1int } else { 0 }) + (if p[1] > p[2] { 1int } else { 0 }) + (if p[1] > p[3] {
        1int
    } else {
        0
    }) + (if p[2] > p[3] { 1int } else { 0 })
}

/// `p` is a permutation of the local slots `0..4`.
pub open spec fn is_perm4(p: [int; 4]) -> bool {
    &&& forall|k: int| 0 <= k < 4 ==> 0 <= #[trigger] p[k] < 4
    &&& forall|k: int, l: int| 0 <= k < l < 4 ==> p[k] != p[l]
}

/// Face `i` of the tet `t` (of any vertex type), wound by [`face_slots`].
pub open spec fn oriented_face_of<T>(t: [T; 4], i: int) -> [T; 3] {
    let s = face_slots(i);
    [t[s[0]], t[s[1]], t[s[2]]]
}

/// Face of a positively oriented tet opposite vertex `i`, wound so the
/// opposite vertex lies on its positive side (builder-index variant).
pub fn face(t: [u32; 4], i: usize) -> (f: [u32; 3])
    ensures
        f == oriented_face_of(t, if i < 3 { i as int } else { 3 }),
{
    match i {
        0 => [t[1], t[3], t[2]],
        1 => [t[0], t[2], t[3]],
        2 => [t[0], t[3], t[1]],
        _ => [t[0], t[1], t[2]],
    }
}

/// Face of a positively oriented tet opposite vertex `i`, wound so the
/// opposite vertex lies on its positive side (public-index variant).
pub fn oriented_face(t: [usize; 4], i: usize) -> (f: [usize; 3])
    ensures
        f == oriented_face_of(t, if i < 3 { i as int } else { 3 }),
{
    match i {
        0 => [t[1], t[3], t[2]],
        1 => [t[0], t[2], t[3]],
        2 => [t[0], t[3], t[1]],
        _ => [t[0], t[1], t[2]],
    }
}

/// Every oriented face omits exactly its opposite vertex, and appending the
/// opposite vertex to the face gives an even permutation of the tet: the
/// opposite vertex lies on the positive side of the face.
pub proof fn lemma_oriented_face_is_positive(i: int)
    requires
        0 <= i < 4,
    ensures
        ({
            let s = face_slots(i);
            &&& is_perm4([s[0], s[1], s[2], i])
            &&& inversions4([s[0], s[1], s[2], i]) % 2 == 0
        }),
{
}

/// `s` traverses the directed edge `x -> y` (cyclically).
pub open spec fn has_directed_edge<T>(s: [T; 3], x: T, y: T) -> bool {
    ||| (s[0] == x && s[1] == y)
    ||| (s[1] == x && s[2] == y)
    ||| (s[2] == x && s[0] == y)
}

/// The four oriented faces close up into a consistently oriented surface:
/// two faces `i != j` share the edge of the two remaining vertices and run
/// through it in opposite directions.
pub proof fn lemma_shared_edge_runs_opposite(i: int, j: int, x: int, y: int)
    requires
        0 <= i < 4,
        0 <= j < 4,
        0 <= x < 4,
        0 <= y < 4,
        i != j,
        x != y,
        x != i && x != j,
        y != i && y != j,
    ensures
        has_directed_edge(face_slots(i), x, y) <==> has_directed_edge(face_slots(j), y, x),
        has_directed_edge(face_slots(i), x, y) || has_directed_edge(face_slots(i), y, x),
{
}

/// `(min, max)` of two vertex indices: the key of an undirected edge.
pub fn sorted2(a: usize, b: usize) -> (r: (usize, usize))
    ensures
        r.0 <= r.1,
        (r.0 == a && r.1 == b) || (r.0 == b && r.1 == a),
{
    if a <= b {
        (a, b)
    } else {
        (b, a)
    }
}

/// `s` is the ascending arrangement of the entries of `f`.
pub open spec fn is_sorted3_of(s: [usize; 3], f: [usize; 3]) -> bool {
    &&& s[0] <= s[1] <= s[2]
    &&& ({
        ||| s == [f[0], f[1], f[2]]
        ||| s == [f[0], f[2], f[1]]
        ||| s == [f[1], f[0], f[2]]
        ||| s == [f[1], f[2], f[0]]
        ||| s == [f[2], f[0], f[1]]
        ||| s == [f[2], f[1], f[0]]
    })
}

/// The ascending arrangement of the vertices of `f`: the key of the
/// unoriented face.
pub open spec fn face_key(f: [usize; 3]) -> [usize; 3] {
    let lo = if f[0] <= f[1] {
        if f[0] <= f[2] {
            f[0]
        } else {
            f[2]
        }
    } else {
        if f[1] <= f[2] {
            f[1]
        } else {
            f[2]
        }
    };
    let hi = if f[0] >= f[1] {
        if f[0] >= f[2] {
            f[0]
        } else {
            f[2]
        }
    } else {
        if f[1] >= f[2] {
            f[1]
        } else {
            f[2]
        }
    };
    [lo, (f[0] + f[1] + f[2] - lo - hi) as usize, hi]
}

/// The vertices of a triangle in ascending order: the key of an
/// unoriented face.
pub fn sorted3(f: [usize; 3]) -> (s: [usize; 3])
    ensures
        s == face_key(f),
        is_sorted3_of(s, f),
{
    let (a, b) = sorted2(f[0], f[1]);
    let s = if f[2] <= a {
        [f[2], a, b]
    } else if f[2] <= b {
        [a, f[2], b]
    } else {
        [a, b, f[2]]
    };
    assert(s =~= face_key(f));
    s
}

/// Sorting a triangle's vertices forgets only their order: two triangles
/// have the same key iff one is a rearrangement of the other.
pub proof fn lemma_sorted3_is_canonical(f: [usize; 3], g: [usize; 3], s: [usize; 3], t: [usize; 3])
    requires
        is_sorted3_of(s, f),
        is_sorted3_of(t, g),
    ensures
        s == t <==> is_sorted3_of(s, g),
{
}

/// The two coordinate axes kept when axis `drop` is projected away
/// (`drop >= 2` keeps x and y).
pub fn kept_axes(drop: usize) -> (r: (usize, usize))
    ensures
        r.0 < r.1 < 3,
        drop < 3 ==> r.0 != drop && r.1 != drop,
        drop >= 2 ==> r == (0usize, 1usize),
{
    match drop {
        0 => (1, 2),
        1 => (0, 2),
        _ => (0, 1),
    }
}

/// `g` is a rotation of `f`: the same oriented triangle.
pub open spec fn same_cycle<T>(f: [T; 3], g: [T; 3]) -> bool {
    ||| (g[0] == f[0] && g[1] == f[1] && g[2] == f[2])
    ||| (g[0] == f[1] && g[1] == f[2] && g[2] == f[0])
    ||| (g[0] == f[2] && g[1] == f[0] && g[2] == f[1])
}

/// `f` with its orientation flipped.
pub open spec fn reversal<T>(f: [T; 3]) -> [T; 3] {
    [f[0], f[2], f[1]]
}

/// True if `g` is an even rotation of `f` (same oriented triangle).
pub fn is_same_cycle(f: [usize; 3], g: [usize; 3]) -> (r: bool)
    ensures
        r == same_cycle(f, g),
{
    (g[0] == f[0] && g[1] == f[1] && g[2] == f[2]) || (g[0] == f[1] && g[1] == f[2] && g[2]
        == f[0]) || (g[0] == f[2] && g[1] == f[0] && g[2] == f[1])
}

/// True if `g` is the reversal of `f` (same triangle, opposite orientation).
pub fn is_reversed(f: [usize; 3], g: [usize; 3]) -> (r: bool)
    ensures
        r == same_cycle(reversal(f), g),
{
    is_same_cycle([f[0], f[2], f[1]], g)
}

/// Rotation equivalence of oriented triangles is an equivalence relation.
pub proof fn lemma_same_cycle_equivalence<T>(f: [T; 3], g: [T; 3], h: [T; 3])
    ensures
        same_cycle(f, f),
        same_cycle(f, g) ==> same_cycle(g, f),
        same_cycle(f, g) && same_cycle(g, h) ==> same_cycle(f, h),
{
}

/// Reversal is symmetric, respects rotation, and a triangle with three
/// distinct vertices is never its own reversal.
pub proof fn lemma_reversal_laws<T>(f: [T; 3], g: [T; 3], h: [T; 3])
    ensures
        same_cycle(reversal(f), g) ==> same_cycle(reversal(g), f),
        same_cycle(reversal(f), g) && same_cycle(g, h) ==> same_cycle(reversal(f), h),
        same_cycle(reversal(reversal(f)), f),
        (f[0] != f[1] && f[1] != f[2] && f[0] != f[2]) ==> !(same_cycle(f, g) && same_cycle(
            reversal(f),
            g,
        )),
{
}

} // verus!
