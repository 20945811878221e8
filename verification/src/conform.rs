//! The tagged surface faces and tet meshes the mesher produces, with their
//! feature (crease) edges.
use crate::fxmap::{fx_empty, fx_get, fx_insert, fx_keys};
use crate::ordering::{lemma_strictly_ascending_unique, sort_usize_pairs, strictly_ascending, ascending};
use rustc_hash::FxHashMap;
use vstd::prelude::*;

verus! {

/// Tag of a PLC face patch (sheets, ports); carried onto every mesh face.
#[derive(Clone, Copy, Debug, PartialEq, Eq, Structural)]
pub struct FaceTag(pub u32);

/// Tag of a material region; `0` is the background.
#[derive(Clone, Copy, Debug, PartialEq, Eq, Structural)]
pub struct RegionTag(pub u32);

/// A conforming surface face of the mesh, with its PLC tags.
#[derive(Clone, Copy, Debug)]
pub struct SurfaceFace {
    /// Global vertex indices.
    pub tri: [usize; 3],
    /// Face tag inherited from the PLC patch.
    pub face_tag: FaceTag,
    /// Region tags on (front, back) of the source patch.
    pub regions: [RegionTag; 2],
    /// Identity of the source patch.
    pub patch: u32,
    /// Analytic surface this face approximates (index into the mesh's
    /// surface table).
    pub surface: u32,
}

/// The kind of analytic surface a face approximates (its geometric
/// parameters live with the geometry).
#[derive(Clone, Copy, Debug, PartialEq, Eq, Structural)]
pub enum SurfaceKind {
    Plane,
    Cylinder,
    Sphere,
    Cone,
    Torus,
    Extruded,
}

/// A region-tagged conforming tetrahedral mesh (its combinatorial part:
/// vertex positions live with the geometry).
pub struct TetMesh {
    /// Positively oriented tets.
    pub tets: Vec<[usize; 4]>,
    /// Region of every tet.
    pub tet_regions: Vec<RegionTag>,
    /// The mesh faces tiling the PLC patches, with tags.
    pub faces: Vec<SurfaceFace>,
    /// The analytic surfaces referenced by [`SurfaceFace::surface`].
    pub surfaces: Vec<SurfaceKind>,
    /// Per-surface owner solid index; `u32::MAX` for sheet surfaces.
    pub surface_owners: Vec<u32>,
    /// Patches the mesher gave up on (always empty).
    pub abandoned_patches: Vec<u32>,
    /// The first `plc_points` vertices are the PLC's own vertices.
    pub plc_points: usize,
}

/// Smooth-group key of a face: (surface, smooth id, face tag, lower region,
/// upper region), where planes are split by patch and curved surfaces are
/// one group.
pub type FaceKey = (u32, u32, u32, u32, u32);

/// The smooth group a face belongs to.
pub open spec fn group_of(surfaces: Seq<SurfaceKind>, sf: SurfaceFace) -> FaceKey {
    let smooth = if surfaces[sf.surface as int] == SurfaceKind::Plane {
        sf.patch
    } else {
        u32::MAX
    };
    let r0 = sf.regions[0].0;
    let r1 = sf.regions[1].0;
    (
        sf.surface,
        smooth,
        sf.face_tag.0,
        if r0 <= r1 {
            r0
        } else {
            r1
        },
        if r0 <= r1 {
            r1
        } else {
            r0
        },
    )
}

/// Undirected key `[min, max]` of side `k` (from corner `k` to corner
/// `k + 1`) of a triangle.
pub open spec fn side_key(tri: [usize; 3], k: int) -> [usize; 2] {
    let a = tri[k];
    let b = tri[(k + 1) % 3];
    if a <= b {
        [a, b]
    } else {
        [b, a]
    }
}

/// Side `k2` of face `t2` comes before side `k` of face `t` (face-major).
pub open spec fn side_before(t2: int, k2: int, t: int, k: int) -> bool {
    t2 < t || (t2 == t && k2 < k)
}

/// Number of face sides before side `k` of face `t` whose key is `e`.
pub open spec fn side_count_before(faces: Seq<SurfaceFace>, e: [usize; 2], t: int, k: int) -> int
    decreases t, k,
{
    if k > 0 {
        side_count_before(faces, e, t, k - 1) + if side_key(faces[t].tri, k - 1) == e {
            1int
        } else {
            0
        }
    } else if t > 0 {
        side_count_before(faces, e, t - 1, 3)
    } else {
        0
    }
}

/// Number of face sides on edge `e`: its incidence count.
pub open spec fn edge_incidence(faces: Seq<SurfaceFace>, e: [usize; 2]) -> int {
    side_count_before(faces, e, faces.len() as int, 0)
}

/// `e` is a side of some face.
pub open spec fn is_face_side(faces: Seq<SurfaceFace>, e: [usize; 2]) -> bool {
    exists|t: int, k: int| 0 <= t < faces.len() && 0 <= k < 3 && #[trigger] side_key(faces[t].tri, k) == e
}

/// Two faces on edge `e` belong to different smooth groups.
pub open spec fn is_group_seam(surfaces: Seq<SurfaceKind>, faces: Seq<SurfaceFace>, e: [usize; 2]) -> bool {
    exists|t1: int, k1: int, t2: int, k2: int|
        0 <= t1 < faces.len() && 0 <= k1 < 3 && 0 <= t2 < faces.len() && 0 <= k2 < 3
            && #[trigger] side_key(faces[t1].tri, k1) == e && #[trigger] side_key(faces[t2].tri, k2) == e
            && group_of(surfaces, faces[t1]) != group_of(surfaces, faces[t2])
}

/// A feature (crease) edge: a face side that is not interior to one smooth
/// surface group, i.e. its incidence is not two, or its faces differ in
/// surface, smooth id, face tag or region pair.
pub open spec fn is_feature_edge(surfaces: Seq<SurfaceKind>, faces: Seq<SurfaceFace>, e: [usize; 2]) -> bool {
    is_face_side(faces, e) && (edge_incidence(faces, e) != 2 || is_group_seam(surfaces, faces, e))
}

/// The feature edges of a mesh in ascending lexicographic order.
pub open spec fn feature_edge_list(surfaces: Seq<SurfaceKind>, faces: Seq<SurfaceFace>) -> Seq<[usize; 2]> {
    choose|s: Seq<[usize; 2]>|
        strictly_ascending(s) && forall|e: [usize; 2]| s.contains(e) <==> is_feature_edge(surfaces, faces, e)
}

/// Two faces belong to one smooth group exactly when they lie on the same
/// analytic surface, carry the same face tag and the same pair of region
/// tags (in either order), and, on a plane, come from the same patch.
pub proof fn lemma_smooth_group_exact(surfaces: Seq<SurfaceKind>, f: SurfaceFace, g: SurfaceFace)
    ensures
        group_of(surfaces, f) == group_of(surfaces, g) <==> {
            &&& f.surface == g.surface
            &&& f.face_tag == g.face_tag
            &&& (f.regions[0] == g.regions[0] && f.regions[1] == g.regions[1]) || (f.regions[0] == g.regions[1]
                && f.regions[1] == g.regions[0])
            &&& surfaces[f.surface as int] == SurfaceKind::Plane ==> f.patch == g.patch
        },
{
    let kf = group_of(surfaces, f);
    let kg = group_of(surfaces, g);
    if f.face_tag.0 == g.face_tag.0 {
        assert(f.face_tag == g.face_tag);
    }
    if f.regions[0].0 == g.regions[0].0 {
        assert(f.regions[0] == g.regions[0]);
    }
    if f.regions[1].0 == g.regions[1].0 {
        assert(f.regions[1] == g.regions[1]);
    }
    if f.regions[0].0 == g.regions[1].0 {
        assert(f.regions[0] == g.regions[1]);
    }
    if f.regions[1].0 == g.regions[0].0 {
        assert(f.regions[1] == g.regions[0]);
    }
}

/// A side shared by two faces on different analytic surfaces, with
/// different face tags, or bounding different region pairs is a feature
/// edge: such faces never form one smooth group.
pub proof fn lemma_group_change_is_feature(
    surfaces: Seq<SurfaceKind>,
    faces: Seq<SurfaceFace>,
    e: [usize; 2],
    t1: int,
    k1: int,
    t2: int,
    k2: int,
)
    requires
        0 <= t1 < faces.len(),
        0 <= k1 < 3,
        0 <= t2 < faces.len(),
        0 <= k2 < 3,
        side_key(faces[t1].tri, k1) == e,
        side_key(faces[t2].tri, k2) == e,
        faces[t1].surface != faces[t2].surface || faces[t1].face_tag != faces[t2].face_tag || !((faces[t1].regions[0]
            == faces[t2].regions[0] && faces[t1].regions[1] == faces[t2].regions[1]) || (faces[t1].regions[0]
            == faces[t2].regions[1] && faces[t1].regions[1] == faces[t2].regions[0])),
    ensures
        is_feature_edge(surfaces, faces, e),
{
    lemma_smooth_group_exact(surfaces, faces[t1], faces[t2]);
    assert(group_of(surfaces, faces[t1]) != group_of(surfaces, faces[t2]));
    assert(is_group_seam(surfaces, faces, e));
    assert(is_face_side(faces, e));
}

/// Counting the sides on `e` up to any side never exceeds the incidence
/// count of `e`.
proof fn lemma_side_count_mono(faces: Seq<SurfaceFace>, e: [usize; 2], t: int, k: int)
    requires
        (0 <= t < faces.len() && 0 <= k <= 3) || (t == faces.len() && k == 0),
    ensures
        side_count_before(faces, e, t, k) <= edge_incidence(faces, e),
    decreases faces.len() - t, 3 - k,
{
    if t < faces.len() {
        if k < 3 {
            lemma_side_count_mono(faces, e, t, k + 1);
        } else {
            lemma_side_count_mono(faces, e, t + 1, 0);
        }
    }
}

proof fn lemma_side_count_bounds(faces: Seq<SurfaceFace>, e: [usize; 2], t: int, k: int)
    requires
        (0 <= t < faces.len() && 0 <= k <= 3) || (t == faces.len() && k == 0),
    ensures
        0 <= side_count_before(faces, e, t, k) <= 3 * t + k,
        side_count_before(faces, e, t, k) > 0 <==> exists|t2: int, k2: int|
            0 <= t2 < faces.len() && 0 <= k2 < 3 && side_before(t2, k2, t, k)
                && #[trigger] side_key(faces[t2].tri, k2) == e,
    decreases t, k,
{
    if k > 0 {
        lemma_side_count_bounds(faces, e, t, k - 1);
        if exists|t2: int, k2: int|
            0 <= t2 < faces.len() && 0 <= k2 < 3 && side_before(t2, k2, t, k)
                && #[trigger] side_key(faces[t2].tri, k2) == e {
            let (t2, k2) = choose|t2: int, k2: int|
                0 <= t2 < faces.len() && 0 <= k2 < 3 && side_before(t2, k2, t, k)
                    && #[trigger] side_key(faces[t2].tri, k2) == e;
            if !(t2 == t && k2 == k - 1) {
                assert(side_before(t2, k2, t, k - 1));
                assert(side_key(faces[t2].tri, k2) == e);
            }
        }
        if side_key(faces[t].tri, k - 1) == e {
            assert(side_before(t, k - 1, t, k));
        }
    } else if t > 0 {
        lemma_side_count_bounds(faces, e, t - 1, 3);
        if exists|t2: int, k2: int|
            0 <= t2 < faces.len() && 0 <= k2 < 3 && side_before(t2, k2, t, k)
                && #[trigger] side_key(faces[t2].tri, k2) == e {
            let (t2, k2) = choose|t2: int, k2: int|
                0 <= t2 < faces.len() && 0 <= k2 < 3 && side_before(t2, k2, t, k)
                    && #[trigger] side_key(faces[t2].tri, k2) == e;
            assert(side_before(t2, k2, t - 1, 3));
            assert(side_key(faces[t2].tri, k2) == e);
        }
    }
}

impl TetMesh {
    /// Feature (crease) edges of the final surface mesh, derived from the
    /// faces so they stay valid through optimizer rewrites. An edge is a
    /// feature edge iff it is not interior to one smooth surface group:
    /// boundary/non-manifold incidence (face count != 2), or the two faces
    /// differ in analytic surface, face tag, or region pair. Within one
    /// `Plane` surface entry the planar patch id discriminates, so true
    /// geometric creases survive while the facet seams of curved analytic
    /// surfaces stay smooth.
#[verifier::spinoff_prover]
    pub fn feature_edges(&self) -> (out: Vec<[usize; 2]>)
        requires
            forall|i: int| 0 <= i < self.faces@.len() ==> (#[trigger] self.faces@[i]).surface < self.surfaces@.len(),
            forall|e: [usize; 2]| #[trigger] edge_incidence(self.faces@, e) <= u32::MAX,
        ensures
            out@ == feature_edge_list(self.surfaces@, self.faces@),
            strictly_ascending(out@),
            forall|e: [usize; 2]| out@.contains(e) <==> is_feature_edge(self.surfaces@, self.faces@, e),
            forall|t1: int, k1: int, t2: int, k2: int|
                0 <= t1 < self.faces@.len() && 0 <= k1 < 3 && 0 <= t2 < self.faces@.len() && 0 <= k2 < 3
                    && #[trigger] side_key(self.faces@[t1].tri, k1) == #[trigger] side_key(self.faces@[t2].tri, k2) && (
                self.faces@[t1].surface != self.faces@[t2].surface || self.faces@[t1].face_tag != self.faces@[t2].face_tag
                    || !((self.faces@[t1].regions[0] == self.faces@[t2].regions[0] && self.faces@[t1].regions[1]
                    == self.faces@[t2].regions[1]) || (self.faces@[t1].regions[0] == self.faces@[t2].regions[1]
                    && self.faces@[t1].regions[1] == self.faces@[t2].regions[0]))) ==> out@.contains(
                side_key(self.faces@[t1].tri, k1),
            ),
            forall|t: int, k: int|
                0 <= t < self.faces@.len() && 0 <= k < 3 && edge_incidence(
                    self.faces@,
                    #[trigger] side_key(self.faces@[t].tri, k),
                ) != 2 ==> out@.contains(side_key(self.faces@[t].tri, k)),
    {
        let ghost faces = self.faces@;
        let ghost surfaces = self.surfaces@;
        let n = self.faces.len();
        // edge -> (incidence count, first face key seen, mixed-key flag)
        let mut edges: FxHashMap<[usize; 2], (u32, FaceKey, bool)> = fx_empty();
        let mut t: usize = 0;
        while t < n
            invariant
                n == faces.len(),
                faces == self.faces@,
                surfaces == self.surfaces@,
                forall|i: int| 0 <= i < faces.len() ==> (#[trigger] faces[i]).surface < surfaces.len(),
                forall|e: [usize; 2]| #[trigger] edge_incidence(faces, e) <= u32::MAX,
                t <= n,
                forall|e: [usize; 2]|
                    #![trigger edges@.contains_key(e)]
                    edges@.contains_key(e) <==> side_count_before(faces, e, t as int, 0) > 0,
                forall|e: [usize; 2]|
                    #![trigger edges@[e]]
                    edges@.contains_key(e) ==> {
                        let v = edges@[e];
                        &&& v.0 == side_count_before(faces, e, t as int, 0)
                        &&& exists|t2: int, k2: int|
                            0 <= t2 < faces.len() && 0 <= k2 < 3 && side_before(t2, k2, t as int, 0)
                                && #[trigger] side_key(faces[t2].tri, k2) == e
                                && group_of(surfaces, faces[t2]) == v.1
                        &&& v.2 <==> exists|t2: int, k2: int|
                            0 <= t2 < faces.len() && 0 <= k2 < 3 && side_before(t2, k2, t as int, 0)
                                && #[trigger] side_key(faces[t2].tri, k2) == e
                                && group_of(surfaces, faces[t2]) != v.1
                    },
            decreases n - t,
        {
            let sf = &self.faces[t];
            let smooth = match self.surfaces[sf.surface as usize] {
                SurfaceKind::Plane => sf.patch,
                _ => u32::MAX,
            };
            let r0 = sf.regions[0].0;
            let r1 = sf.regions[1].0;
            let key: FaceKey = (
                sf.surface,
                smooth,
                sf.face_tag.0,
                if r0 <= r1 {
                    r0
                } else {
                    r1
                },
                if r0 <= r1 {
                    r1
                } else {
                    r0
                },
            );
            proof {
                assert(key == group_of(surfaces, faces[t as int]));
            }
            let mut k: usize = 0;
            while k < 3
                invariant
                    n == faces.len(),
                    faces == self.faces@,
                    surfaces == self.surfaces@,
                    forall|e: [usize; 2]| #[trigger] edge_incidence(faces, e) <= u32::MAX,
                    t < n,
                    k <= 3,
                    key == group_of(surfaces, faces[t as int]),
                    *sf == faces[t as int],
                    forall|e: [usize; 2]|
                        #![trigger edges@.contains_key(e)]
                        edges@.contains_key(e) <==> side_count_before(faces, e, t as int, k as int) > 0,
                    forall|e: [usize; 2]|
                        #![trigger edges@[e]]
                        edges@.contains_key(e) ==> {
                            let v = edges@[e];
                            &&& v.0 == side_count_before(faces, e, t as int, k as int)
                            &&& exists|t2: int, k2: int|
                                0 <= t2 < faces.len() && 0 <= k2 < 3 && side_before(
                                    t2,
                                    k2,
                                    t as int,
                                    k as int,
                                ) && #[trigger] side_key(faces[t2].tri, k2) == e && group_of(
                                    surfaces,
                                    faces[t2],
                                ) == v.1
                            &&& v.2 <==> exists|t2: int, k2: int|
                                0 <= t2 < faces.len() && 0 <= k2 < 3 && side_before(
                                    t2,
                                    k2,
                                    t as int,
                                    k as int,
                                ) && #[trigger] side_key(faces[t2].tri, k2) == e && group_of(
                                    surfaces,
                                    faces[t2],
                                ) != v.1
                        },
                decreases 3 - k,
            {
                let a = sf.tri[k];
                let b = sf.tri[if k == 2 {
                    0
                } else {
                    k + 1
                }];
                let e = if a <= b {
                    [a, b]
                } else {
                    [b, a]
                };
                let ghost old_edges = edges@;
                proof {
                    assert((k as int + 1) % 3 == if k == 2 { 0int } else { k as int + 1 });
                    assert(a == faces[t as int].tri[k as int]);
                    assert(b == faces[t as int].tri[(k as int + 1) % 3]);
                    assert(e == side_key(faces[t as int].tri, k as int));
                    lemma_side_count_bounds(faces, e, t as int, k as int);
                    lemma_side_count_mono(faces, e, t as int, k as int + 1);
                    assert(edge_incidence(faces, e) <= u32::MAX);
                }
                let entry = match fx_get(&edges, &e) {
                    Some(v) => (v.0 + 1, v.1, v.2 || keys_differ(v.1, key)),
                    None => (1u32, key, false),
                };
                fx_insert(&mut edges, e, entry);
                proof {
                    assert forall|x: [usize; 2]| edges@.contains_key(x) implies {
                        let v = edges@[x];
                        &&& v.0 == side_count_before(faces, x, t as int, k + 1)
                        &&& exists|t2: int, k2: int|
                            0 <= t2 < faces.len() && 0 <= k2 < 3 && side_before(
                                t2,
                                k2,
                                t as int,
                                k + 1,
                            ) && #[trigger] side_key(faces[t2].tri, k2) == x && group_of(
                                surfaces,
                                faces[t2],
                            ) == v.1
                        &&& v.2 <==> exists|t2: int, k2: int|
                            0 <= t2 < faces.len() && 0 <= k2 < 3 && side_before(
                                t2,
                                k2,
                                t as int,
                                k + 1,
                            ) && #[trigger] side_key(faces[t2].tri, k2) == x && group_of(
                                surfaces,
                                faces[t2],
                            ) != v.1
                    } by {
                        let v = edges@[x];
                        if x == e {
                            assert(side_before(t as int, k as int, t as int, k + 1));
                            assert(side_key(faces[t as int].tri, k as int) == x);
                            if old_edges.contains_key(x) {
                                let ov = old_edges[x];
                                let (t1, k1) = choose|t2: int, k2: int|
                                    0 <= t2 < faces.len() && 0 <= k2 < 3 && side_before(
                                        t2,
                                        k2,
                                        t as int,
                                        k as int,
                                    ) && #[trigger] side_key(faces[t2].tri, k2) == x && group_of(
                                        surfaces,
                                        faces[t2],
                                    ) == ov.1;
                                assert(side_before(t1, k1, t as int, k + 1));
                                assert(side_key(faces[t1].tri, k1) == x);
                                if v.2 {
                                    if !ov.2 {
                                        assert(group_of(surfaces, faces[t as int]) != v.1);
                                    } else {
                                        let (t3, k3) = choose|t2: int, k2: int|
                                            0 <= t2 < faces.len() && 0 <= k2 < 3 && side_before(
                                                t2,
                                                k2,
                                                t as int,
                                                k as int,
                                            ) && #[trigger] side_key(faces[t2].tri, k2) == x
                                                && group_of(surfaces, faces[t2]) != ov.1;
                                        assert(side_before(t3, k3, t as int, k + 1));
                                        assert(side_key(faces[t3].tri, k3) == x);
                                    }
                                }
                                if exists|t2: int, k2: int|
                                    0 <= t2 < faces.len() && 0 <= k2 < 3 && side_before(
                                        t2,
                                        k2,
                                        t as int,
                                        k + 1,
                                    ) && #[trigger] side_key(faces[t2].tri, k2) == x && group_of(
                                        surfaces,
                                        faces[t2],
                                    ) != v.1 {
                                    let (t3, k3) = choose|t2: int, k2: int|
                                        0 <= t2 < faces.len() && 0 <= k2 < 3 && side_before(
                                            t2,
                                            k2,
                                            t as int,
                                            k + 1,
                                        ) && #[trigger] side_key(faces[t2].tri, k2) == x
                                            && group_of(surfaces, faces[t2]) != v.1;
                                    if !(t3 == t && k3 == k) {
                                        assert(side_before(t3, k3, t as int, k as int));
                                    }
                                }
                            } else {
                                assert(side_count_before(faces, x, t as int, k as int) == 0);
                                if exists|t2: int, k2: int|
                                    0 <= t2 < faces.len() && 0 <= k2 < 3 && side_before(
                                        t2,
                                        k2,
                                        t as int,
                                        k + 1,
                                    ) && #[trigger] side_key(faces[t2].tri, k2) == x && group_of(
                                        surfaces,
                                        faces[t2],
                                    ) != v.1 {
                                    let (t3, k3) = choose|t2: int, k2: int|
                                        0 <= t2 < faces.len() && 0 <= k2 < 3 && side_before(
                                            t2,
                                            k2,
                                            t as int,
                                            k + 1,
                                        ) && #[trigger] side_key(faces[t2].tri, k2) == x
                                            && group_of(surfaces, faces[t2]) != v.1;
                                    if !(t3 == t && k3 == k) {
                                        assert(side_before(t3, k3, t as int, k as int));
                                        assert(false);
                                    }
                                }
                            }
                        } else {
                            assert(old_edges.contains_key(x));
                            let ov = old_edges[x];
                            let (t1, k1) = choose|t2: int, k2: int|
                                0 <= t2 < faces.len() && 0 <= k2 < 3 && side_before(
                                    t2,
                                    k2,
                                    t as int,
                                    k as int,
                                ) && #[trigger] side_key(faces[t2].tri, k2) == x && group_of(
                                    surfaces,
                                    faces[t2],
                                ) == ov.1;
                            assert(side_before(t1, k1, t as int, k + 1));
                            if ov.2 {
                                let (t3, k3) = choose|t2: int, k2: int|
                                    0 <= t2 < faces.len() && 0 <= k2 < 3 && side_before(
                                        t2,
                                        k2,
                                        t as int,
                                        k as int,
                                    ) && #[trigger] side_key(faces[t2].tri, k2) == x && group_of(
                                        surfaces,
                                        faces[t2],
                                    ) != ov.1;
                                assert(side_before(t3, k3, t as int, k + 1));
                            }
                            if exists|t2: int, k2: int|
                                0 <= t2 < faces.len() && 0 <= k2 < 3 && side_before(
                                    t2,
                                    k2,
                                    t as int,
                                    k + 1,
                                ) && #[trigger] side_key(faces[t2].tri, k2) == x && group_of(
                                    surfaces,
                                    faces[t2],
                                ) != v.1 {
                                let (t3, k3) = choose|t2: int, k2: int|
                                    0 <= t2 < faces.len() && 0 <= k2 < 3 && side_before(
                                        t2,
                                        k2,
                                        t as int,
                                        k + 1,
                                    ) && #[trigger] side_key(faces[t2].tri, k2) == x && group_of(
                                        surfaces,
                                        faces[t2],
                                    ) != v.1;
                                assert(side_before(t3, k3, t as int, k as int));
                            }
                        }
                    }
                }
                k += 1;
            }
            proof {
                assert forall|x: [usize; 2]| #![trigger edges@[x]] edges@.contains_key(x) implies {
                    let v = edges@[x];
                    &&& v.0 == side_count_before(faces, x, t + 1, 0)
                    &&& exists|t2: int, k2: int|
                        0 <= t2 < faces.len() && 0 <= k2 < 3 && side_before(t2, k2, t + 1, 0)
                            && #[trigger] side_key(faces[t2].tri, k2) == x
                            && group_of(surfaces, faces[t2]) == v.1
                    &&& v.2 <==> exists|t2: int, k2: int|
                        0 <= t2 < faces.len() && 0 <= k2 < 3 && side_before(t2, k2, t + 1, 0)
                            && #[trigger] side_key(faces[t2].tri, k2) == x
                            && group_of(surfaces, faces[t2]) != v.1
                } by {
                    let v = edges@[x];
                    let (t1, k1) = choose|t2: int, k2: int|
                        0 <= t2 < faces.len() && 0 <= k2 < 3 && side_before(t2, k2, t as int, 3)
                            && #[trigger] side_key(faces[t2].tri, k2) == x
                            && group_of(surfaces, faces[t2]) == v.1;
                    assert(side_before(t1, k1, t + 1, 0));
                    if v.2 {
                        let (t3, k3) = choose|t2: int, k2: int|
                            0 <= t2 < faces.len() && 0 <= k2 < 3 && side_before(t2, k2, t as int, 3)
                                && #[trigger] side_key(faces[t2].tri, k2) == x
                                && group_of(surfaces, faces[t2]) != v.1;
                        assert(side_before(t3, k3, t + 1, 0));
                    }
                    if exists|t2: int, k2: int|
                        0 <= t2 < faces.len() && 0 <= k2 < 3 && side_before(t2, k2, t + 1, 0)
                            && #[trigger] side_key(faces[t2].tri, k2) == x
                            && group_of(surfaces, faces[t2]) != v.1 {
                        let (t3, k3) = choose|t2: int, k2: int|
                            0 <= t2 < faces.len() && 0 <= k2 < 3 && side_before(t2, k2, t + 1, 0)
                                && #[trigger] side_key(faces[t2].tri, k2) == x
                                && group_of(surfaces, faces[t2]) != v.1;
                        assert(side_before(t3, k3, t as int, 3));
                    }
                }
            }
            t += 1;
        }
        let ghost map = edges@;
        // every edge key of the map is a face side; the flags decide
        proof {
            assert forall|e: [usize; 2]| #![trigger map.contains_key(e)]
                map.contains_key(e) <==> is_face_side(faces, e) by {
                lemma_side_count_bounds(faces, e, n as int, 0);
                if is_face_side(faces, e) {
                    let (t2, k2) = choose|t2: int, k2: int| 0 <= t2 < faces.len() && 0 <= k2 < 3
                        && #[trigger] side_key(faces[t2].tri, k2) == e;
                    assert(side_before(t2, k2, n as int, 0));
                }
            }
            assert forall|e: [usize; 2]| #![trigger map.contains_key(e)]
                map.contains_key(e) ==> (map[e].0 != 2 || map[e].2 <==> is_feature_edge(surfaces, faces, e)) by {
                if map.contains_key(e) {
                    let v = map[e];
                    let (t1, k1) = choose|t2: int, k2: int|
                        0 <= t2 < faces.len() && 0 <= k2 < 3 && side_before(t2, k2, n as int, 0)
                            && #[trigger] side_key(faces[t2].tri, k2) == e
                            && group_of(surfaces, faces[t2]) == v.1;
                    assert(side_key(faces[t1].tri, k1) == e);
                    assert(is_face_side(faces, e));
                    if v.2 {
                        let (t3, k3) = choose|t2: int, k2: int|
                            0 <= t2 < faces.len() && 0 <= k2 < 3 && side_before(t2, k2, n as int, 0)
                                && #[trigger] side_key(faces[t2].tri, k2) == e
                                && group_of(surfaces, faces[t2]) != v.1;
                        assert(side_key(faces[t3].tri, k3) == e);
                        assert(is_group_seam(surfaces, faces, e));
                    }
                    if is_group_seam(surfaces, faces, e) {
                        let (ta, ka, tb, kb) = choose|t1: int, k1: int, t2: int, k2: int|
                            0 <= t1 < faces.len() && 0 <= k1 < 3 && 0 <= t2 < faces.len() && 0 <= k2 < 3
                                && #[trigger] side_key(faces[t1].tri, k1) == e
                                && #[trigger] side_key(faces[t2].tri, k2) == e
                                && group_of(surfaces, faces[t1]) != group_of(surfaces, faces[t2]);
                        assert(side_before(ta, ka, n as int, 0));
                        assert(side_before(tb, kb, n as int, 0));
                        if group_of(surfaces, faces[ta]) != v.1 {
                            assert(side_key(faces[ta].tri, ka) == e);
                        } else {
                            assert(side_key(faces[tb].tri, kb) == e);
                        }
                    }
                }
            }
        }
        let keys = fx_keys(&edges);
        let mut out: Vec<[usize; 2]> = Vec::new();
        let mut i: usize = 0;
        while i < keys.len()
            invariant
                map == edges@,
                i <= keys@.len(),
                keys@.no_duplicates(),
                keys@.to_set() == map.dom(),
                forall|e: [usize; 2]| #![trigger map.contains_key(e)]
                    map.contains_key(e) ==> (map[e].0 != 2 || map[e].2 <==> is_feature_edge(surfaces, faces, e)),
                forall|e: [usize; 2]| #![trigger map.contains_key(e)]
                    map.contains_key(e) <==> is_face_side(faces, e),
                out@ == keys@.take(i as int).filter(|e: [usize; 2]| is_feature_edge(surfaces, faces, e)),
            decreases keys@.len() - i,
        {
            let e = keys[i];
            proof {
                assert(keys@.to_set().contains(e));
                keys@.take(i as int).lemma_filter_push(e, |e: [usize; 2]| is_feature_edge(surfaces, faces, e));
                assert(keys@.take(i as int).push(e) =~= keys@.take(i + 1));
            }
            let v = match fx_get(&edges, &e) {
                Some(v) => v,
                None => (2u32, (0u32, 0u32, 0u32, 0u32, 0u32), false),
            };
            if v.0 != 2 || v.2 {
                out.push(e);
            }
            i += 1;
        }
        let ghost unsorted = out@;
        proof {
            assert(keys@.take(keys@.len() as int) =~= keys@);
            let p = |e: [usize; 2]| is_feature_edge(surfaces, faces, e);
            broadcast use vstd::seq_lib::group_filter_ensures;

            assert forall|e: [usize; 2]| unsorted.contains(e) <==> is_feature_edge(surfaces, faces, e) by {
                if unsorted.contains(e) {
                    let j = choose|j: int| 0 <= j < unsorted.len() && unsorted[j] == e;
                    assert(p(unsorted[j]));
                }
                if is_feature_edge(surfaces, faces, e) {
                    assert(map.contains_key(e));
                    assert(keys@.to_set().contains(e));
                    let j = choose|j: int| 0 <= j < keys@.len() && keys@[j] == e;
                    assert(keys@.filter(p).contains(keys@[j]));
                }
            }
            assert(unsorted.no_duplicates()) by {
                lemma_filter_no_duplicates(keys@, p);
            }
        }
        sort_usize_pairs(&mut out);
        proof {
            crate::ordering::lemma_sorted_distinct_keys(unsorted, out@);
            let m = feature_edge_list(surfaces, faces);
            assert(strictly_ascending(m) && forall|e: [usize; 2]|
                m.contains(e) <==> is_feature_edge(surfaces, faces, e));
            lemma_strictly_ascending_unique(out@, m);
            assert forall|t1: int, k1: int, t2: int, k2: int|
                0 <= t1 < faces.len() && 0 <= k1 < 3 && 0 <= t2 < faces.len() && 0 <= k2 < 3
                    && #[trigger] side_key(faces[t1].tri, k1) == #[trigger] side_key(faces[t2].tri, k2) && (faces[t1].surface
                    != faces[t2].surface || faces[t1].face_tag != faces[t2].face_tag || !((faces[t1].regions[0]
                    == faces[t2].regions[0] && faces[t1].regions[1] == faces[t2].regions[1]) || (faces[t1].regions[0]
                    == faces[t2].regions[1] && faces[t1].regions[1] == faces[t2].regions[0]))) implies out@.contains(
                side_key(faces[t1].tri, k1),
            ) by {
                lemma_group_change_is_feature(surfaces, faces, side_key(faces[t1].tri, k1), t1, k1, t2, k2);
            }
            assert forall|t: int, k: int|
                0 <= t < faces.len() && 0 <= k < 3 && edge_incidence(faces, #[trigger] side_key(faces[t].tri, k)) != 2
                    implies out@.contains(side_key(faces[t].tri, k)) by {
                assert(is_face_side(faces, side_key(faces[t].tri, k)));
            }
        }
        out
    }
}

/// The two smooth-group keys differ in some component.
fn keys_differ(a: FaceKey, b: FaceKey) -> (r: bool)
    ensures
        r == (a != b),
{
    a.0 != b.0 || a.1 != b.1 || a.2 != b.2 || a.3 != b.3 || a.4 != b.4
}

/// Filtering keeps a sequence free of repeats.
proof fn lemma_filter_no_duplicates<A>(s: Seq<A>, p: spec_fn(A) -> bool)
    requires
        s.no_duplicates(),
    ensures
        s.filter(p).no_duplicates(),
    decreases s.len(),
{
    reveal(Seq::filter);
    if s.len() > 0 {
        let init = s.drop_last();
        assert(init.no_duplicates());
        lemma_filter_no_duplicates(init, p);
        if p(s.last()) {
            if init.filter(p).contains(s.last()) {
                init.lemma_filter_contains_rev(p, s.last());
                let j = choose|j: int| 0 <= j < init.len() && init[j] == s.last();
                assert(s[j] == s[s.len() - 1]);
            }
        }
    }
}

} // verus!
