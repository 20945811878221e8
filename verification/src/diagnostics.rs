//! Kinds of located mesh defects, and the conformity check of the surface
//! faces: the edges not shared by exactly two faces.
use crate::conform::{edge_incidence, is_face_side, is_feature_edge, side_count_before, side_key, SurfaceFace, SurfaceKind, TetMesh};
use crate::ordering::{pair_lt, strictly_ascending, tally_usize_pairs};
use vstd::prelude::*;

verus! {

broadcast use vstd::array::group_array_axioms;

/// The kind of a located mesh defect.
#[derive(Clone, Copy, Debug, PartialEq, Eq, Structural)]
pub enum DefectKind {
    /// A tet whose smallest dihedral angle is below the sliver bound.
    Sliver,
    /// A surface edge not shared by exactly two faces (a boundary leak /
    /// non-manifold incidence).
    NonManifoldEdge,
    /// A boundary face with a vertex off its analytic surface: an interior
    /// point leaked into the boundary.
    Straddler,
}

/// The undirected sides of the faces, three per face in face order.
pub open spec fn face_sides(faces: Seq<SurfaceFace>) -> Seq<[usize; 2]> {
    Seq::new(3 * faces.len(), |j: int| side_key(faces[j / 3].tri, j % 3))
}

/// Number of face sides on edge `e`.
pub open spec fn side_count(faces: Seq<SurfaceFace>, e: [usize; 2]) -> int {
    face_sides(faces).to_multiset().count(e) as int
}

/// The edge keys of a list of `(edge, count)` entries.
pub open spec fn edge_keys(s: Seq<([usize; 2], usize)>) -> Seq<[usize; 2]> {
    s.map_values(|x: ([usize; 2], usize)| x.0)
}

/// The surface edges not shared by exactly two faces (boundary or
/// non-manifold incidence), in ascending order, each with its incidence
/// count. The mesh is watertight exactly when this is empty.
pub fn nonmanifold_edges(mesh: &TetMesh) -> (out: Vec<([usize; 2], usize)>)
    requires
        3 * mesh.faces@.len() <= usize::MAX,
    ensures
        strictly_ascending(edge_keys(out@)),
        forall|j: int|
            0 <= j < out@.len() ==> (#[trigger] out@[j]).1 == side_count(mesh.faces@, out@[j].0) && out@[j].1 != 2
                && out@[j].1 > 0,
        forall|e: [usize; 2]|
            side_count(mesh.faces@, e) > 0 && side_count(mesh.faces@, e) != 2 ==> edge_keys(out@).contains(e),
{
    let ghost faces = mesh.faces@;
    let n = mesh.faces.len();
    let mut sides: Vec<[usize; 2]> = Vec::new();
    let mut t: usize = 0;
    while t < n
        invariant
            n == faces.len(),
            faces == mesh.faces@,
            3 * n <= usize::MAX,
            t <= n,
            sides@ == face_sides(faces).take(3 * t),
        decreases n - t,
    {
        let tri = mesh.faces[t].tri;
        let mut k: usize = 0;
        while k < 3
            invariant
                n == faces.len(),
                faces == mesh.faces@,
                3 * n <= usize::MAX,
                t < n,
                k <= 3,
                tri == faces[t as int].tri,
                sides@ == face_sides(faces).take(3 * t + k),
            decreases 3 - k,
        {
            let a = tri[k];
            let b = tri[if k == 2 {
                0
            } else {
                k + 1
            }];
            let e = if a <= b {
                [a, b]
            } else {
                [b, a]
            };
            proof {
                let j = 3 * t + k;
                assert(j / 3 == t && j % 3 == k);
                assert((k as int + 1) % 3 == if k == 2 { 0int } else { k as int + 1 });
                assert(face_sides(faces)[j] == side_key(faces[t as int].tri, k as int));
                assert(e == side_key(faces[t as int].tri, k as int));
                assert(face_sides(faces).take(j + 1) =~= face_sides(faces).take(j).push(e));
            }
            sides.push(e);
            k += 1;
        }
        t += 1;
    }
    proof {
        assert(face_sides(faces).take(3 * n) =~= face_sides(faces));
    }
    let (ks, cs) = tally_usize_pairs(&sides);
    let mut out: Vec<([usize; 2], usize)> = Vec::new();
    let mut j: usize = 0;
    while j < ks.len()
        invariant
            sides@ == face_sides(faces),
            faces == mesh.faces@,
            strictly_ascending(ks@),
            cs@.len() == ks@.len(),
            forall|e: [usize; 2]| ks@.contains(e) <==> sides@.contains(e),
            forall|m: int| 0 <= m < ks@.len() ==> #[trigger] cs@[m] == sides@.to_multiset().count(ks@[m]),
            j <= ks@.len(),
            strictly_ascending(edge_keys(out@)),
            out@.len() > 0 ==> exists|m: int| 0 <= m < j && #[trigger] ks@[m] == out@.last().0,
            forall|a: int|
                0 <= a < out@.len() ==> (#[trigger] out@[a]).1 == side_count(faces, out@[a].0) && out@[a].1 != 2
                    && out@[a].1 > 0,
            forall|m: int|
                0 <= m < j && cs@[m] != 2 ==> edge_keys(out@).contains(#[trigger] ks@[m]),
        decreases ks@.len() - j,
    {
        let e = ks[j];
        let c = cs[j];
        proof {
            assert(ks@.contains(e));
            assert(sides@.contains(e));
            sides@.to_multiset_ensures();
        }
        if c != 2 {
            let ghost before = out@;
            out.push((e, c));
            proof {
                assert(edge_keys(out@) =~= edge_keys(before).push(e));
                if before.len() > 0 {
                    let m = choose|m: int| 0 <= m < j && #[trigger] ks@[m] == before.last().0;
                    assert(pair_lt(ks@[m], ks@[j as int]));
                }
                assert forall|a: int, b: int| 0 <= a < b < edge_keys(out@).len() implies pair_lt(
                    #[trigger] edge_keys(out@)[a],
                    #[trigger] edge_keys(out@)[b],
                ) by {
                    if b == before.len() && a < b - 1 {
                        assert(pair_lt(edge_keys(before)[a], edge_keys(before)[b - 1]));
                    }
                }
                assert forall|m: int| 0 <= m < j + 1 && cs@[m] != 2 implies edge_keys(out@).contains(
                    #[trigger] ks@[m],
                ) by {
                    if m < j {
                        let i = choose|i: int| 0 <= i < edge_keys(before).len() && edge_keys(before)[i] == ks@[m];
                        assert(edge_keys(out@)[i] == ks@[m]);
                    } else {
                        assert(edge_keys(out@)[before.len() as int] == ks@[m]);
                    }
                }
                assert(ks@[j as int] == out@.last().0);
            }
        }
        j += 1;
    }
    proof {
        assert forall|e: [usize; 2]|
            side_count(faces, e) > 0 && side_count(faces, e) != 2 implies edge_keys(out@).contains(e) by {
            sides@.to_multiset_ensures();
            assert(sides@.contains(e));
            assert(ks@.contains(e));
            let m = choose|m: int| 0 <= m < ks@.len() && ks@[m] == e;
            assert(cs@[m] == sides@.to_multiset().count(ks@[m]));
        }
    }
    out
}


/// The incidence count the feature-edge test uses is the number of face
/// sides on the edge.
proof fn lemma_side_count_before_is_tally(faces: Seq<SurfaceFace>, e: [usize; 2], t: int, k: int)
    requires
        (0 <= t < faces.len() && 0 <= k <= 3) || (t == faces.len() && k == 0),
    ensures
        side_count_before(faces, e, t, k) == face_sides(faces).take(3 * t + k).to_multiset().count(e),
    decreases t, k,
{
    let s = face_sides(faces);
    if k > 0 {
        lemma_side_count_before_is_tally(faces, e, t, k - 1);
        let j = 3 * t + k - 1;
        assert(j / 3 == t && j % 3 == k - 1);
        assert(s.take(j + 1) =~= s.take(j).push(s[j]));
        s.take(j).to_multiset_ensures();
    } else if t > 0 {
        lemma_side_count_before_is_tally(faces, e, t - 1, 3);
        assert(3 * (t - 1) + 3 == 3 * t + k);
    } else {
        assert(s.take(0) =~= Seq::<[usize; 2]>::empty());
        s.take(0).to_multiset_ensures();
    }
}

/// Every edge that the conformity check reports (one not shared by exactly
/// two faces) is a feature edge: boundary and non-manifold edges are
/// always creases.
pub proof fn lemma_nonmanifold_edges_are_feature_edges(
    surfaces: Seq<SurfaceKind>,
    faces: Seq<SurfaceFace>,
    e: [usize; 2],
)
    requires
        side_count(faces, e) > 0,
        side_count(faces, e) != 2,
    ensures
        is_feature_edge(surfaces, faces, e),
{
    let s = face_sides(faces);
    lemma_side_count_before_is_tally(faces, e, faces.len() as int, 0);
    assert(s.take(3 * faces.len() as int) =~= s);
    assert(edge_incidence(faces, e) == side_count(faces, e));
    s.to_multiset_ensures();
    assert(s.contains(e));
    let j = choose|j: int| 0 <= j < s.len() && s[j] == e;
    assert(side_key(faces[j / 3].tri, j % 3) == e);
    assert(is_face_side(faces, e));
}

} // verus!
