//! Method-of-moments / FEM mesh information derived from a surface mesh:
//! undirected edge adjacency and the RWG basis and boundary edges a solver
//! reads off the surface. Pure topology over the faces.
use crate::conform::SurfaceFace;
use crate::fxmap::{fx_empty, fx_get, fx_insert, fx_keys};
use crate::ordering::{
    lemma_sorted_distinct_keys, lemma_strictly_ascending_unique, sort_u32_pairs,
    strictly_ascending,
};
use rustc_hash::FxHashMap;
use vstd::prelude::*;

verus! {

/// The faces of a surface mesh (its topology; positions are not needed by
/// the adjacency queries).
pub struct SurfaceMesh {
    pub faces: Vec<SurfaceFace>,
}

/// Undirected edge adjacency of a surface mesh.
pub struct EdgeAdjacency {
    /// Unique edges `[v0, v1]` with `v0 < v1`, sorted lexicographically.
    pub edges: Vec<[u32; 2]>,
    /// The first and the last incident triangle per edge; `-1` for a free side.
    pub tris: Vec<[i64; 2]>,
    /// `face_tag` of those incident triangles; `-1` where none.
    pub tags: Vec<[i64; 2]>,
}

/// Local corner pair of edge slot `slot` of a triangle: `[0,1]`, `[1,2]`,
/// `[2,0]`.
pub open spec fn slot_corners(slot: int) -> (int, int) {
    if slot == 0 {
        (0, 1)
    } else if slot == 1 {
        (1, 2)
    } else {
        (2, 0)
    }
}

/// The undirected key of edge slot `slot` of a triangle, with the vertex
/// indices narrowed to `u32`.
pub open spec fn edge_key(tri: [usize; 3], slot: int) -> [u32; 2] {
    let a = tri[slot_corners(slot).0] as u32;
    let b = tri[slot_corners(slot).1] as u32;
    if a < b {
        [a, b]
    } else {
        [b, a]
    }
}

/// `e` is the key of some edge slot of some face.
pub open spec fn is_mesh_edge(faces: Seq<SurfaceFace>, e: [u32; 2]) -> bool {
    exists|s: int, t: int| 0 <= s < 3 && 0 <= t < faces.len() && #[trigger] edge_key(faces[t].tri, s) == e
}

/// Incident triangles of edge `e` recorded after visiting the edge slots in
/// edge-type-major order (slot `[0,1]` of every face, then `[1,2]`, then
/// `[2,0]`) up to slot `s`, face `t`: the first visitor, and the latest
/// visitor after it; `-1` where there is none.
pub open spec fn incidence_after(faces: Seq<SurfaceFace>, e: [u32; 2], s: int, t: int) -> (int, int)
    decreases s, t,
{
    if t > 0 {
        let prev = incidence_after(faces, e, s, t - 1);
        if edge_key(faces[t - 1].tri, s) == e {
            if prev.0 < 0 {
                (t - 1, prev.1)
            } else {
                (prev.0, t - 1)
            }
        } else {
            prev
        }
    } else if s > 0 {
        incidence_after(faces, e, s - 1, faces.len() as int)
    } else {
        (-1, -1)
    }
}

/// The first and the last incident triangle of edge `e` in edge-type-major
/// order (`-1` for none; the second is `-1` unless the edge is visited at
/// least twice).
pub open spec fn incidence(faces: Seq<SurfaceFace>, e: [u32; 2]) -> (int, int) {
    incidence_after(faces, e, 3, 0)
}

/// Face tag of triangle `t`, or `-1` for no triangle.
pub open spec fn tag_of(faces: Seq<SurfaceFace>, t: int) -> i64 {
    if t >= 0 {
        faces[t].face_tag.0 as i64
    } else {
        -1i64
    }
}

/// The unique edges of the mesh in ascending lexicographic order.
pub open spec fn mesh_edges(faces: Seq<SurfaceFace>) -> Seq<[u32; 2]> {
    choose|s: Seq<[u32; 2]>|
        strictly_ascending(s) && forall|e: [u32; 2]| s.contains(e) <==> is_mesh_edge(faces, e)
}

/// An interior edge shared by two triangles of the same conductor tag.
pub open spec fn is_rwg_edge(faces: Seq<SurfaceFace>, e: [u32; 2]) -> bool {
    let inc = incidence(faces, e);
    inc.1 >= 0 && tag_of(faces, inc.0) == tag_of(faces, inc.1)
}

/// RWG row `[v0, v1, tri_plus, tri_minus]` of edge `e`.
pub open spec fn rwg_row(faces: Seq<SurfaceFace>, e: [u32; 2]) -> [i64; 4] {
    let inc = incidence(faces, e);
    [e[0] as i64, e[1] as i64, inc.0 as i64, inc.1 as i64]
}

/// Boundary row `[v0, v1, tri]` of edge `e`.
pub open spec fn boundary_row(faces: Seq<SurfaceFace>, e: [u32; 2]) -> [i64; 3] {
    [e[0] as i64, e[1] as i64, incidence(faces, e).0 as i64]
}

/// Membership test of the RWG basis edges.
pub open spec fn rwg_test(faces: Seq<SurfaceFace>) -> spec_fn([u32; 2]) -> bool {
    |e: [u32; 2]| is_rwg_edge(faces, e)
}

/// Membership test of the conductor outline edges.
pub open spec fn boundary_test(faces: Seq<SurfaceFace>) -> spec_fn([u32; 2]) -> bool {
    |e: [u32; 2]| !is_rwg_edge(faces, e)
}

/// RWG rows of the RWG edges among `edges`, in order.
pub open spec fn rwg_rows_of(faces: Seq<SurfaceFace>, edges: Seq<[u32; 2]>) -> Seq<[i64; 4]> {
    edges.filter(rwg_test(faces)).map_values(|e: [u32; 2]| rwg_row(faces, e))
}

/// Boundary rows of the non-RWG edges among `edges`, in order.
pub open spec fn boundary_rows_of(faces: Seq<SurfaceFace>, edges: Seq<[u32; 2]>) -> Seq<
    [i64; 3],
> {
    edges.filter(boundary_test(faces)).map_values(|e: [u32; 2]| boundary_row(faces, e))
}

/// The RWG basis edges of the mesh, in edge order.
pub open spec fn rwg_rows(faces: Seq<SurfaceFace>) -> Seq<[i64; 4]> {
    rwg_rows_of(faces, mesh_edges(faces))
}

/// The conductor outline edges of the mesh, in edge order.
pub open spec fn boundary_rows(faces: Seq<SurfaceFace>) -> Seq<[i64; 3]> {
    boundary_rows_of(faces, mesh_edges(faces))
}

/// Appending one edge appends its row to exactly one of the two lists.
proof fn lemma_rows_push(faces: Seq<SurfaceFace>, edges: Seq<[u32; 2]>, x: [u32; 2])
    ensures
        rwg_rows_of(faces, edges.push(x)) == if is_rwg_edge(faces, x) {
            rwg_rows_of(faces, edges).push(rwg_row(faces, x))
        } else {
            rwg_rows_of(faces, edges)
        },
        boundary_rows_of(faces, edges.push(x)) == if is_rwg_edge(faces, x) {
            boundary_rows_of(faces, edges)
        } else {
            boundary_rows_of(faces, edges).push(boundary_row(faces, x))
        },
{
    edges.lemma_filter_push(x, rwg_test(faces));
    edges.lemma_filter_push(x, boundary_test(faces));
    let fr = edges.filter(rwg_test(faces));
    let fb = edges.filter(boundary_test(faces));
    assert(fr.push(x).map_values(|e: [u32; 2]| rwg_row(faces, e)) =~= fr.map_values(
        |e: [u32; 2]| rwg_row(faces, e),
    ).push(rwg_row(faces, x)));
    assert(fb.push(x).map_values(|e: [u32; 2]| boundary_row(faces, e)) =~= fb.map_values(
        |e: [u32; 2]| boundary_row(faces, e),
    ).push(boundary_row(faces, x)));
}

/// Some RWG row starts with the vertex pair `e`.
pub open spec fn rwg_lists(rows: Seq<[i64; 4]>, e: [u32; 2]) -> bool {
    exists|j: int| 0 <= j < rows.len() && (#[trigger] rows[j])[0] == e[0] as i64 && rows[j][1] == e[1] as i64
}

/// Some boundary row starts with the vertex pair `e`.
pub open spec fn boundary_lists(rows: Seq<[i64; 3]>, e: [u32; 2]) -> bool {
    exists|j: int| 0 <= j < rows.len() && (#[trigger] rows[j])[0] == e[0] as i64 && rows[j][1] == e[1] as i64
}

/// The RWG basis edges and the conductor outline partition the edges of
/// the mesh: the two lists together are as long as the edge list, and an
/// edge pair is listed by the RWG rows exactly when it is an RWG edge of
/// the list, by the boundary rows exactly when it is any other edge of the
/// list; so every edge of the list is listed by exactly one of the two.
pub proof fn lemma_rwg_boundary_partition(faces: Seq<SurfaceFace>, edges: Seq<[u32; 2]>)
    ensures
        rwg_rows_of(faces, edges).len() + boundary_rows_of(faces, edges).len() == edges.len(),
        forall|e: [u32; 2]|
            #[trigger] rwg_lists(rwg_rows_of(faces, edges), e) <==> edges.contains(e) && is_rwg_edge(faces, e),
        forall|e: [u32; 2]|
            #[trigger] boundary_lists(boundary_rows_of(faces, edges), e) <==> edges.contains(e) && !is_rwg_edge(faces, e),
    decreases edges.len(),
{
    broadcast use vstd::array::group_array_axioms;

    if edges.len() == 0 {
        assert(edges.filter(rwg_test(faces)) =~= Seq::<[u32; 2]>::empty()) by {
            reveal(Seq::filter);
        }
        assert(edges.filter(boundary_test(faces)) =~= Seq::<[u32; 2]>::empty()) by {
            reveal(Seq::filter);
        }
    } else {
        let init = edges.drop_last();
        let x = edges.last();
        lemma_rwg_boundary_partition(faces, init);
        lemma_rows_push(faces, init, x);
        assert(init.push(x) =~= edges);
        let ri = rwg_rows_of(faces, init);
        let bi = boundary_rows_of(faces, init);
        let re = rwg_rows_of(faces, edges);
        let be = boundary_rows_of(faces, edges);
        assert forall|e: [u32; 2]| #[trigger] rwg_lists(re, e) <==> edges.contains(e) && is_rwg_edge(faces, e) by {
            assert(edges.contains(e) <==> init.contains(e) || e == x) by {
                if edges.contains(e) {
                    let j = choose|j: int| 0 <= j < edges.len() && edges[j] == e;
                    if j < init.len() {
                        assert(init[j] == e);
                    }
                }
                if init.contains(e) {
                    let j = choose|j: int| 0 <= j < init.len() && init[j] == e;
                    assert(edges[j] == e);
                }
                if e == x {
                    assert(edges[edges.len() - 1] == e);
                }
            }
            if rwg_lists(re, e) {
                let j = choose|j: int| 0 <= j < re.len() && (#[trigger] re[j])[0] == e[0] as i64 && re[j][1] == e[1] as i64;
                if j < ri.len() {
                    assert(re[j] == ri[j]);
                    assert(rwg_lists(ri, e));
                } else {
                    assert(re[j] == rwg_row(faces, x));
                    assert(e =~= x);
                }
            }
            if edges.contains(e) && is_rwg_edge(faces, e) {
                if init.contains(e) {
                    assert(rwg_lists(ri, e));
                    let j = choose|j: int| 0 <= j < ri.len() && (#[trigger] ri[j])[0] == e[0] as i64 && ri[j][1] == e[1] as i64;
                    assert(re[j] == ri[j]);
                } else {
                    assert(re[re.len() - 1] == rwg_row(faces, x));
                }
            }
        }
        assert forall|e: [u32; 2]| #[trigger] boundary_lists(be, e) <==> edges.contains(e) && !is_rwg_edge(faces, e) by {
            assert(edges.contains(e) <==> init.contains(e) || e == x) by {
                if edges.contains(e) {
                    let j = choose|j: int| 0 <= j < edges.len() && edges[j] == e;
                    if j < init.len() {
                        assert(init[j] == e);
                    }
                }
                if init.contains(e) {
                    let j = choose|j: int| 0 <= j < init.len() && init[j] == e;
                    assert(edges[j] == e);
                }
                if e == x {
                    assert(edges[edges.len() - 1] == e);
                }
            }
            if boundary_lists(be, e) {
                let j = choose|j: int| 0 <= j < be.len() && (#[trigger] be[j])[0] == e[0] as i64 && be[j][1] == e[1] as i64;
                if j < bi.len() {
                    assert(be[j] == bi[j]);
                    assert(boundary_lists(bi, e));
                } else {
                    assert(be[j] == boundary_row(faces, x));
                    assert(e =~= x);
                }
            }
            if edges.contains(e) && !is_rwg_edge(faces, e) {
                if init.contains(e) {
                    assert(boundary_lists(bi, e));
                    let j = choose|j: int| 0 <= j < bi.len() && (#[trigger] bi[j])[0] == e[0] as i64 && bi[j][1] == e[1] as i64;
                    assert(be[j] == bi[j]);
                } else {
                    assert(be[be.len() - 1] == boundary_row(faces, x));
                }
            }
        }
    }
}

/// Recorded incidences are `-1` or face indices, and a second incident
/// triangle is only recorded after a first.
proof fn lemma_incidence_range(faces: Seq<SurfaceFace>, e: [u32; 2], s: int, t: int)
    requires
        0 <= s,
        0 <= t <= faces.len(),
    ensures
        ({
            let st = incidence_after(faces, e, s, t);
            &&& st.0 == -1 || 0 <= st.0 < faces.len()
            &&& st.1 == -1 || 0 <= st.1 < faces.len()
            &&& st.0 < 0 ==> st.1 == -1
        }),
    decreases s, t,
{
    if t > 0 {
        lemma_incidence_range(faces, e, s, t - 1);
    } else if s > 0 {
        lemma_incidence_range(faces, e, s - 1, faces.len() as int);
    }
}

/// A first incident triangle is recorded exactly when some earlier slot
/// visit has key `e`.
proof fn lemma_incidence_visited(faces: Seq<SurfaceFace>, e: [u32; 2], s: int, t: int)
    requires
        0 <= s < 3 || (s == 3 && t == 0),
        0 <= t <= faces.len(),
    ensures
        incidence_after(faces, e, s, t).0 >= 0 <==> (exists|s2: int, t2: int|
            0 <= s2 < 3 && 0 <= t2 < faces.len() && (s2 < s || (s2 == s && t2 < t))
                && #[trigger] edge_key(faces[t2].tri, s2) == e),
    decreases s, t,
{
    if t > 0 {
        lemma_incidence_visited(faces, e, s, t - 1);
        lemma_incidence_range(faces, e, s, t - 1);
        if edge_key(faces[t - 1].tri, s) == e {
            assert(edge_key(faces[t - 1].tri, s) == e);
        } else {
            if exists|s2: int, t2: int|
                0 <= s2 < 3 && 0 <= t2 < faces.len() && (s2 < s || (s2 == s && t2 < t))
                    && #[trigger] edge_key(faces[t2].tri, s2) == e {
                let (s2, t2) = choose|s2: int, t2: int|
                    0 <= s2 < 3 && 0 <= t2 < faces.len() && (s2 < s || (s2 == s && t2 < t))
                        && #[trigger] edge_key(faces[t2].tri, s2) == e;
                assert(edge_key(faces[t2].tri, s2) == e);
                assert(s2 < s || (s2 == s && t2 < t - 1));
            }
        }
    } else if s > 0 {
        lemma_incidence_visited(faces, e, s - 1, faces.len() as int);
        if exists|s2: int, t2: int|
            0 <= s2 < 3 && 0 <= t2 < faces.len() && (s2 < s || (s2 == s && t2 < t))
                && #[trigger] edge_key(faces[t2].tri, s2) == e {
            let (s2, t2) = choose|s2: int, t2: int|
                0 <= s2 < 3 && 0 <= t2 < faces.len() && (s2 < s || (s2 == s && t2 < t))
                    && #[trigger] edge_key(faces[t2].tri, s2) == e;
            assert(edge_key(faces[t2].tri, s2) == e);
        }
    }
}

/// The incident triangles recorded for an edge are faces of the mesh that
/// have the edge, and a second one is recorded only after a first.
proof fn lemma_incidence_faces(faces: Seq<SurfaceFace>, e: [u32; 2], s: int, t: int)
    requires
        0 <= s <= 3,
        0 <= t <= faces.len(),
        s == 3 ==> t == 0,
    ensures
        -1 <= incidence_after(faces, e, s, t).0 < faces.len(),
        -1 <= incidence_after(faces, e, s, t).1 < faces.len(),
        incidence_after(faces, e, s, t).1 >= 0 ==> incidence_after(faces, e, s, t).0 >= 0,
        incidence_after(faces, e, s, t).0 >= 0 ==> exists|k: int|
            0 <= k < 3 && #[trigger] edge_key(faces[incidence_after(faces, e, s, t).0].tri, k) == e,
        incidence_after(faces, e, s, t).1 >= 0 ==> exists|k: int|
            0 <= k < 3 && #[trigger] edge_key(faces[incidence_after(faces, e, s, t).1].tri, k) == e,
    decreases s, t,
{
    if t > 0 {
        lemma_incidence_faces(faces, e, s, t - 1);
        let prev = incidence_after(faces, e, s, t - 1);
        let cur = incidence_after(faces, e, s, t);
        if edge_key(faces[t - 1].tri, s) == e {
            if prev.0 < 0 {
                assert(cur.0 == t - 1);
                assert(edge_key(faces[cur.0].tri, s) == e);
            } else {
                assert(cur.1 == t - 1);
                assert(edge_key(faces[cur.1].tri, s) == e);
            }
        } else {
            assert(cur == prev);
        }
    } else if s > 0 {
        lemma_incidence_faces(faces, e, s - 1, faces.len() as int);
    }
}

/// Every RWG row `[v0, v1, t_plus, t_minus]` joins two faces of one
/// conductor: both are faces of the mesh with the edge `(v0, v1)`, and they
/// carry the same face tag.
pub proof fn lemma_rwg_rows_one_conductor(faces: Seq<SurfaceFace>, edges: Seq<[u32; 2]>)
    requires
        faces.len() <= i64::MAX,
    ensures
        forall|j: int|
            0 <= j < rwg_rows_of(faces, edges).len() ==> {
                let r = #[trigger] rwg_rows_of(faces, edges)[j];
                &&& 0 <= r[2] < faces.len()
                &&& 0 <= r[3] < faces.len()
                &&& faces[r[2] as int].face_tag == faces[r[3] as int].face_tag
                &&& exists|k: int| 0 <= k < 3 && #[trigger] edge_key(faces[r[2] as int].tri, k) == [r[0] as u32, r[1] as u32]
                &&& exists|k: int| 0 <= k < 3 && #[trigger] edge_key(faces[r[3] as int].tri, k) == [r[0] as u32, r[1] as u32]
            },
{
    let f = edges.filter(rwg_test(faces));
    assert forall|j: int| 0 <= j < rwg_rows_of(faces, edges).len() implies {
        let r = #[trigger] rwg_rows_of(faces, edges)[j];
        &&& 0 <= r[2] < faces.len()
        &&& 0 <= r[3] < faces.len()
        &&& faces[r[2] as int].face_tag == faces[r[3] as int].face_tag
        &&& exists|k: int| 0 <= k < 3 && #[trigger] edge_key(faces[r[2] as int].tri, k) == [r[0] as u32, r[1] as u32]
        &&& exists|k: int| 0 <= k < 3 && #[trigger] edge_key(faces[r[3] as int].tri, k) == [r[0] as u32, r[1] as u32]
    } by {
        edges.lemma_filter_pred(rwg_test(faces), j);
        let e = f[j];
        assert(rwg_rows_of(faces, edges)[j] == rwg_row(faces, e));
        assert(is_rwg_edge(faces, e));
        lemma_incidence_faces(faces, e, 3, 0);
        let inc = incidence(faces, e);
        let r = rwg_row(faces, e);
        assert(r[2] as int == inc.0 && r[3] as int == inc.1);
        assert(faces[inc.0].face_tag.0 == faces[inc.1].face_tag.0);
        assert([r[0] as u32, r[1] as u32] =~= e);
    }
}

/// An edge of the list whose two recorded incident faces carry different
/// face tags joins two conductors: it is a boundary row, never an RWG row.
pub proof fn lemma_conductor_change_is_outline(faces: Seq<SurfaceFace>, edges: Seq<[u32; 2]>, e: [u32; 2])
    requires
        edges.contains(e),
        incidence(faces, e).1 >= 0,
        faces[incidence(faces, e).0].face_tag != faces[incidence(faces, e).1].face_tag,
    ensures
        boundary_lists(boundary_rows_of(faces, edges), e),
        !rwg_lists(rwg_rows_of(faces, edges), e),
{
    lemma_incidence_faces(faces, e, 3, 0);
    lemma_rwg_boundary_partition(faces, edges);
    let inc = incidence(faces, e);
    if faces[inc.0].face_tag.0 == faces[inc.1].face_tag.0 {
        assert(faces[inc.0].face_tag == faces[inc.1].face_tag);
    }
    assert(!is_rwg_edge(faces, e));
}

/// An edge of the list shared by two recorded faces with the same face tag
/// is an RWG basis edge, never a boundary row; an edge of the list with a
/// single recorded face is a boundary row, never an RWG basis edge.
pub proof fn lemma_rwg_exactly_same_conductor(faces: Seq<SurfaceFace>, edges: Seq<[u32; 2]>, e: [u32; 2])
    requires
        edges.contains(e),
    ensures
        incidence(faces, e).1 >= 0 && faces[incidence(faces, e).0].face_tag == faces[incidence(faces, e).1].face_tag
            ==> rwg_lists(rwg_rows_of(faces, edges), e) && !boundary_lists(boundary_rows_of(faces, edges), e),
        incidence(faces, e).1 < 0 ==> boundary_lists(boundary_rows_of(faces, edges), e) && !rwg_lists(
            rwg_rows_of(faces, edges),
            e,
        ),
{
    lemma_incidence_faces(faces, e, 3, 0);
    lemma_rwg_boundary_partition(faces, edges);
}

/// The conductor outline and the RWG basis partition the edges of a mesh:
/// [`SurfaceMesh::boundary_edges`] and [`SurfaceMesh::rwg_edges`] together
/// list as many rows as [`SurfaceMesh::edge_adjacency`] lists edges, and
/// each listed edge starts a row of exactly one of the two.
pub proof fn lemma_mesh_outline_partition(faces: Seq<SurfaceFace>)
    ensures
        boundary_rows(faces).len() + rwg_rows(faces).len() == mesh_edges(faces).len(),
        forall|e: [u32; 2]|
            #[trigger] mesh_edges(faces).contains(e) ==> (rwg_lists(rwg_rows(faces), e) <==> !boundary_lists(
                boundary_rows(faces),
                e,
            )),
        forall|e: [u32; 2]|
            rwg_lists(rwg_rows(faces), e) || boundary_lists(boundary_rows(faces), e) ==> #[trigger] mesh_edges(
                faces,
            ).contains(e),
{
    lemma_rwg_boundary_partition(faces, mesh_edges(faces));
}

impl SurfaceMesh {
    /// Undirected edge -> incident triangles + their face tags. A
    /// non-manifold edge keeps its first and last triangle.
    pub fn edge_adjacency(&self) -> (adj: EdgeAdjacency)
        requires
            self.faces@.len() <= i64::MAX,
        ensures
            adj.edges@ == mesh_edges(self.faces@),
            strictly_ascending(adj.edges@),
            forall|e: [u32; 2]| adj.edges@.contains(e) <==> is_mesh_edge(self.faces@, e),
            adj.tris@.len() == adj.edges@.len(),
            adj.tags@.len() == adj.edges@.len(),
            forall|i: int|
                0 <= i < adj.edges@.len() ==> {
                    let inc = incidence(self.faces@, #[trigger] adj.edges@[i]);
                    &&& adj.tris@[i][0] == inc.0
                    &&& adj.tris@[i][1] == inc.1
                    &&& adj.tags@[i][0] == tag_of(self.faces@, inc.0)
                    &&& adj.tags@[i][1] == tag_of(self.faces@, inc.1)
                },
    {
        let ghost faces = self.faces@;
        let n = self.faces.len();
        // Visit the three edge slots in EDGE-TYPE-major order ([0,1] of every
        // face, then [1,2], then [2,0]) so the first/last incident triangle --
        // hence the RWG +/- orientation -- is fixed by the face order.
        let mut map: FxHashMap<[u32; 2], (i64, i64)> = fx_empty();
        let mut s: usize = 0;
        while s < 3
            invariant
                n == faces.len(),
                faces == self.faces@,
                n <= i64::MAX,
                s <= 3,
                forall|e: [u32; 2]|
                    #![trigger map@.contains_key(e)]
                    #![trigger incidence_after(faces, e, s as int, 0)]
                    map@.contains_key(e) <==> incidence_after(faces, e, s as int, 0).0 >= 0,
                forall|e: [u32; 2]|
                    #![trigger map@[e]]
                    map@.contains_key(e) ==> map@[e].0 == incidence_after(faces, e, s as int, 0).0
                        && map@[e].1 == incidence_after(faces, e, s as int, 0).1,
            decreases 3 - s,
        {
            let (i, j) = match s {
                0 => (0usize, 1usize),
                1 => (1usize, 2usize),
                _ => (2usize, 0usize),
            };
            let mut ti: usize = 0;
            while ti < n
                invariant
                    n == faces.len(),
                    faces == self.faces@,
                    n <= i64::MAX,
                    s < 3,
                    ti <= n,
                    (i as int, j as int) == slot_corners(s as int),
                    forall|e: [u32; 2]|
                        #![trigger map@.contains_key(e)]
                        #![trigger incidence_after(faces, e, s as int, ti as int)]
                        map@.contains_key(e) <==> incidence_after(faces, e, s as int, ti as int).0
                            >= 0,
                    forall|e: [u32; 2]|
                        #![trigger map@[e]]
                        map@.contains_key(e) ==> map@[e].0 == incidence_after(
                            faces,
                            e,
                            s as int,
                            ti as int,
                        ).0 && map@[e].1 == incidence_after(faces, e, s as int, ti as int).1,
                decreases n - ti,
            {
                let f = &self.faces[ti];
                let a = #[verifier::truncate] (f.tri[i] as u32);
                let b = #[verifier::truncate] (f.tri[j] as u32);
                let key = if a < b {
                    [a, b]
                } else {
                    [b, a]
                };
                proof {
                    assert(key == edge_key(faces[ti as int].tri, s as int));
                    lemma_incidence_range(faces, key, s as int, ti as int);
                }
                let cur = match fx_get(&map, &key) {
                    Some(x) => x,
                    None => (-1i64, -1i64),
                };
                let next = if cur.0 < 0 {
                    (ti as i64, cur.1)
                } else {
                    (cur.0, ti as i64)
                };
                fx_insert(&mut map, key, next);
                ti += 1;
            }
            s += 1;
        }
        proof {
            assert forall|e: [u32; 2]| map@.contains_key(e) <==> is_mesh_edge(faces, e) by {
                lemma_incidence_visited(faces, e, 3, 0);
                if incidence_after(faces, e, 3, 0).0 >= 0 {
                    let (s2, t2) = choose|s2: int, t2: int|
                        0 <= s2 < 3 && 0 <= t2 < faces.len() && (s2 < 3 || (s2 == 3 && t2 < 0))
                            && #[trigger] edge_key(faces[t2].tri, s2) == e;
                    assert(edge_key(faces[t2].tri, s2) == e);
                }
                if is_mesh_edge(faces, e) {
                    let (s2, t2) = choose|s2: int, t2: int|
                        0 <= s2 < 3 && 0 <= t2 < faces.len() && #[trigger] edge_key(
                            faces[t2].tri,
                            s2,
                        ) == e;
                    assert(edge_key(faces[t2].tri, s2) == e);
                }
            }
        }
        let mut edges = fx_keys(&map);
        let ghost keys = edges@;
        sort_u32_pairs(&mut edges);
        proof {
            lemma_sorted_distinct_keys(keys, edges@);
            assert forall|e: [u32; 2]| edges@.contains(e) <==> is_mesh_edge(faces, e) by {
                assert(keys.contains(e) <==> keys.to_set().contains(e));
            }
            let m = mesh_edges(faces);
            assert(strictly_ascending(m) && forall|e: [u32; 2]|
                m.contains(e) <==> is_mesh_edge(faces, e));
            lemma_strictly_ascending_unique(edges@, m);
        }
        let mut tris: Vec<[i64; 2]> = Vec::new();
        let mut tags: Vec<[i64; 2]> = Vec::new();
        let mut k: usize = 0;
        while k < edges.len()
            invariant
                n == faces.len(),
                faces == self.faces@,
                k <= edges@.len(),
                tris@.len() == k,
                tags@.len() == k,
                forall|e: [u32; 2]| edges@.contains(e) <==> is_mesh_edge(faces, e),
                forall|e: [u32; 2]| map@.contains_key(e) <==> is_mesh_edge(faces, e),
                forall|e: [u32; 2]|
                    #![trigger map@[e]]
                    map@.contains_key(e) ==> map@[e].0 == incidence(faces, e).0 && map@[e].1
                        == incidence(faces, e).1,
                forall|i: int|
                    0 <= i < k ==> {
                        let inc = incidence(faces, #[trigger] edges@[i]);
                        &&& tris@[i][0] == inc.0
                        &&& tris@[i][1] == inc.1
                        &&& tags@[i][0] == tag_of(faces, inc.0)
                        &&& tags@[i][1] == tag_of(faces, inc.1)
                    },
            decreases edges@.len() - k,
        {
            let e = edges[k];
            proof {
                assert(edges@.contains(e));
                assert(is_mesh_edge(faces, e));
                assert(map@.contains_key(e));
                lemma_incidence_range(faces, e, 3, 0);
            }
            let (t0, t1) = match fx_get(&map, &e) {
                Some(x) => x,
                None => (-1i64, -1i64),
            };
            let g0 = if t0 >= 0 {
                self.faces[t0 as usize].face_tag.0 as i64
            } else {
                -1
            };
            let g1 = if t1 >= 0 {
                self.faces[t1 as usize].face_tag.0 as i64
            } else {
                -1
            };
            proof {
                assert(t0 == incidence(faces, e).0 && t1 == incidence(faces, e).1);
                assert(g0 == tag_of(faces, t0 as int));
                assert(g1 == tag_of(faces, t1 as int));
            }
            tris.push([t0, t1]);
            tags.push([g0, g1]);
            k += 1;
        }
        EdgeAdjacency { edges, tris, tags }
    }

    /// MoM RWG basis edges (the surface degrees of freedom): interior edges
    /// shared by two triangles of the SAME conductor tag. Returns `[v0, v1,
    /// tri_plus, tri_minus]` (current flows `+` -> `-`).
    pub fn rwg_edges(&self) -> (r: Vec<[i64; 4]>)
        requires
            self.faces@.len() <= i64::MAX,
        ensures
            r@ == rwg_rows(self.faces@),
            forall|j: int|
                0 <= j < r@.len() ==> 0 <= (#[trigger] r@[j])[2] < self.faces@.len() && 0 <= r@[j][3] < self.faces@.len()
                    && self.faces@[r@[j][2] as int].face_tag == self.faces@[r@[j][3] as int].face_tag,
            forall|e: [u32; 2]|
                is_mesh_edge(self.faces@, e) && incidence(self.faces@, e).1 >= 0 && self.faces@[incidence(
                    self.faces@,
                    e,
                ).0].face_tag != self.faces@[incidence(self.faces@, e).1].face_tag ==> !#[trigger] rwg_lists(r@, e),
            forall|e: [u32; 2]|
                is_mesh_edge(self.faces@, e) && incidence(self.faces@, e).1 >= 0 && self.faces@[incidence(
                    self.faces@,
                    e,
                ).0].face_tag == self.faces@[incidence(self.faces@, e).1].face_tag ==> #[trigger] rwg_lists(r@, e),
    {
        let ghost faces = self.faces@;
        let adj = self.edge_adjacency();
        let mut out: Vec<[i64; 4]> = Vec::new();
        let mut i: usize = 0;
        while i < adj.edges.len()
            invariant
                faces == self.faces@,
                i <= adj.edges@.len(),
                adj.tris@.len() == adj.edges@.len(),
                adj.tags@.len() == adj.edges@.len(),
                forall|k: int|
                    0 <= k < adj.edges@.len() ==> {
                        let inc = incidence(faces, #[trigger] adj.edges@[k]);
                        &&& adj.tris@[k][0] == inc.0
                        &&& adj.tris@[k][1] == inc.1
                        &&& adj.tags@[k][0] == tag_of(faces, inc.0)
                        &&& adj.tags@[k][1] == tag_of(faces, inc.1)
                    },
                out@ == rwg_rows_of(faces, adj.edges@.take(i as int)),
            decreases adj.edges@.len() - i,
        {
            let e = adj.edges[i];
            proof {
                lemma_rows_push(faces, adj.edges@.take(i as int), e);
                assert(adj.edges@.take(i as int).push(e) =~= adj.edges@.take(i + 1));
            }
            if adj.tris[i][1] >= 0 && adj.tags[i][0] == adj.tags[i][1] {
                out.push([e[0] as i64, e[1] as i64, adj.tris[i][0], adj.tris[i][1]]);
            }
            i += 1;
        }
        proof {
            assert(adj.edges@.take(adj.edges@.len() as int) =~= adj.edges@);
            lemma_rwg_rows_one_conductor(faces, adj.edges@);
            assert forall|e: [u32; 2]|
                is_mesh_edge(faces, e) && incidence(faces, e).1 >= 0 && faces[incidence(faces, e).0].face_tag
                    != faces[incidence(faces, e).1].face_tag implies !#[trigger] rwg_lists(out@, e) by {
                lemma_conductor_change_is_outline(faces, adj.edges@, e);
            }
            assert forall|e: [u32; 2]|
                is_mesh_edge(faces, e) && incidence(faces, e).1 >= 0 && faces[incidence(faces, e).0].face_tag
                    == faces[incidence(faces, e).1].face_tag implies #[trigger] rwg_lists(out@, e) by {
                lemma_rwg_exactly_same_conductor(faces, adj.edges@, e);
            }
        }
        out
    }

    /// Conductor outline: edges with only one same-tag triangle (a free side
    /// or a tag change). Returns `[v0, v1, tri]`.
    pub fn boundary_edges(&self) -> (r: Vec<[i64; 3]>)
        requires
            self.faces@.len() <= i64::MAX,
        ensures
            r@ == boundary_rows(self.faces@),
            forall|e: [u32; 2]|
                is_mesh_edge(self.faces@, e) && incidence(self.faces@, e).1 >= 0 && self.faces@[incidence(
                    self.faces@,
                    e,
                ).0].face_tag != self.faces@[incidence(self.faces@, e).1].face_tag ==> #[trigger] boundary_lists(r@, e),
            forall|e: [u32; 2]|
                is_mesh_edge(self.faces@, e) && incidence(self.faces@, e).1 < 0 ==> #[trigger] boundary_lists(r@, e),
    {
        let ghost faces = self.faces@;
        let adj = self.edge_adjacency();
        let mut out: Vec<[i64; 3]> = Vec::new();
        let mut i: usize = 0;
        while i < adj.edges.len()
            invariant
                faces == self.faces@,
                i <= adj.edges@.len(),
                adj.tris@.len() == adj.edges@.len(),
                adj.tags@.len() == adj.edges@.len(),
                forall|k: int|
                    0 <= k < adj.edges@.len() ==> {
                        let inc = incidence(faces, #[trigger] adj.edges@[k]);
                        &&& adj.tris@[k][0] == inc.0
                        &&& adj.tris@[k][1] == inc.1
                        &&& adj.tags@[k][0] == tag_of(faces, inc.0)
                        &&& adj.tags@[k][1] == tag_of(faces, inc.1)
                    },
                out@ == boundary_rows_of(faces, adj.edges@.take(i as int)),
            decreases adj.edges@.len() - i,
        {
            let e = adj.edges[i];
            proof {
                lemma_rows_push(faces, adj.edges@.take(i as int), e);
                assert(adj.edges@.take(i as int).push(e) =~= adj.edges@.take(i + 1));
            }
            if adj.tris[i][1] < 0 || adj.tags[i][0] != adj.tags[i][1] {
                out.push([e[0] as i64, e[1] as i64, adj.tris[i][0]]);
            }
            i += 1;
        }
        proof {
            assert(adj.edges@.take(adj.edges@.len() as int) =~= adj.edges@);
            assert forall|e: [u32; 2]|
                is_mesh_edge(faces, e) && incidence(faces, e).1 >= 0 && faces[incidence(faces, e).0].face_tag
                    != faces[incidence(faces, e).1].face_tag implies #[trigger] boundary_lists(out@, e) by {
                lemma_conductor_change_is_outline(faces, adj.edges@, e);
            }
            assert forall|e: [u32; 2]| is_mesh_edge(faces, e) && incidence(faces, e).1 < 0 implies #[trigger] boundary_lists(
                out@,
                e,
            ) by {
                lemma_rwg_exactly_same_conductor(faces, adj.edges@, e);
            }
        }
        out
    }
}

} // verus!
