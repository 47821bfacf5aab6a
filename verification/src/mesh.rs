//! The indexed mesh: faces referencing vertices by dense integer handles,
//! with per-vertex position and normal tables in fixed-point coordinates.
//!
//! A vertex handle is an index into the position/normal tables; a face
//! handle is an index into the face table; a face lists its boundary
//! vertices in counter-clockwise winding. The mesh is built once from a
//! renderable triangle list and is read-only afterwards.

use vstd::prelude::*;
use crate::vec3::Vec3i;
use crate::vec3::V3;
use crate::aabb::Aabb;
use crate::ratio::lemma_mul_bound2;
use vstd::arithmetic::div_mod::lemma_div_is_ordered;
use vstd::arithmetic::div_mod::lemma_div_multiples_vanish;
use vstd::arithmetic::div_mod::lemma_hoist_over_denominator;

verus! {

/// Why a renderable mesh was rejected.
#[derive(Clone, Copy, PartialEq, Eq, Structural, Debug)]
pub enum MeshError {
    /// Position and normal tables differ in length.
    MismatchedAttributeCounts,
    /// No triangles at all.
    EmptyMesh,
    /// The index list is not a whole number of triangles.
    BadIndexCount,
    /// More indices than a 32-bit handle can address.
    TooLarge,
    /// A coordinate exceeds `MAX_COORD`.
    CoordinateOutOfRange,
    /// An index references a vertex that does not exist.
    IndexOutOfRange,
}

/// A topological mesh with dense per-vertex attribute tables.
pub struct EditableMesh {
    pub positions: Vec<Vec3i>,
    pub normals: Vec<Vec3i>,
    pub faces: Vec<Vec<u32>>,
}

/// All coordinates of every vector in `s` within `[-b, b]`.
pub open spec fn all_bounded(s: Seq<Vec3i>, b: int) -> bool {
    forall|i: int| 0 <= i < s.len() ==> (#[trigger] s[i]).bounded(b)
}

/// The conditions under which a triangle list is accepted.
pub open spec fn triangles_ok(p: Seq<Vec3i>, n: Seq<Vec3i>, idx: Seq<u32>) -> bool {
    &&& p.len() == n.len()
    &&& 0 < idx.len() <= u32::MAX
    &&& idx.len() % 3 == 0
    &&& all_bounded(p, crate::MAX_COORD as int)
    &&& all_bounded(n, crate::MAX_COORD as int)
    &&& forall|i: int| 0 <= i < idx.len() ==> (#[trigger] idx[i]) < p.len()
}

/// The face table a triangle index list describes: one face per index
/// triple, in order.
pub open spec fn face_triples(idx: Seq<u32>) -> Seq<Seq<u32>> {
    Seq::new((idx.len() / 3) as nat, |f: int| seq![idx[3 * f], idx[3 * f + 1], idx[3 * f + 2]])
}

impl EditableMesh {
    /// The face table as a sequence of vertex-handle sequences.
    pub open spec fn spec_faces(self) -> Seq<Seq<u32>> {
        Seq::new(self.faces@.len(), |f: int| self.faces@[f]@)
    }

    pub open spec fn num_faces(self) -> int {
        self.faces@.len() as int
    }

    pub open spec fn num_vertices(self) -> int {
        self.positions@.len() as int
    }

    /// Structural invariant: at least one face, every face at least a
    /// triangle, every handle registered, every coordinate bounded, and few
    /// enough faces that tree-node indices fit in `u32`.
    pub open spec fn wf(self) -> bool {
        &&& self.positions@.len() == self.normals@.len()
        &&& 1 <= self.faces@.len() <= 0x55555555
        &&& all_bounded(self.positions@, crate::MAX_COORD as int)
        &&& all_bounded(self.normals@, crate::MAX_COORD as int)
        &&& forall|f: int| 0 <= f < self.faces@.len() ==> 3 <= (#[trigger] self.faces@[f])@.len()
            <= u32::MAX
        &&& forall|f: int, k: int| 0 <= f < self.faces@.len() && 0 <= k < self.faces@[f]@.len()
            ==> (#[trigger] self.faces@[f]@[k]) < self.positions@.len()
    }

    /// Builds the mesh from vertex attributes and an explicit triangle
    /// index list. Rejects, in this order: mismatched attribute tables, an
    /// empty or non-triple or over-long index list, an out-of-range
    /// coordinate, an out-of-range index.
    pub fn from_triangles(positions: Vec<Vec3i>, normals: Vec<Vec3i>, indices: Vec<u32>) -> (r:
        Result<EditableMesh, MeshError>)
        ensures
            r is Ok <==> triangles_ok(positions@, normals@, indices@),
            r is Ok ==> {
                &&& r->Ok_0.positions@ == positions@
                &&& r->Ok_0.normals@ == normals@
                &&& r->Ok_0.spec_faces() == face_triples(indices@)
                &&& r->Ok_0.wf()
            },
            positions@.len() != normals@.len() ==> r == Err::<EditableMesh, MeshError>(
                MeshError::MismatchedAttributeCounts,
            ),
            positions@.len() == normals@.len() && indices@.len() == 0 ==> r == Err::<
                EditableMesh,
                MeshError,
            >(MeshError::EmptyMesh),
            positions@.len() == normals@.len() && indices@.len() > 0 && indices@.len() % 3 != 0
                ==> r == Err::<EditableMesh, MeshError>(MeshError::BadIndexCount),
            positions@.len() == normals@.len() && indices@.len() > 0 && indices@.len() % 3 == 0
                && indices@.len() > u32::MAX ==> r == Err::<EditableMesh, MeshError>(
                MeshError::TooLarge,
            ),
    {
        if positions.len() != normals.len() {
            return Err(MeshError::MismatchedAttributeCounts);
        }
        if indices.len() == 0 {
            return Err(MeshError::EmptyMesh);
        }
        if indices.len() % 3 != 0 {
            return Err(MeshError::BadIndexCount);
        }
        if indices.len() > u32::MAX as usize {
            return Err(MeshError::TooLarge);
        }
        let mut i: usize = 0;
        while i < positions.len()
            invariant
                i <= positions@.len() == normals@.len(),
                forall|j: int| 0 <= j < i ==> (#[trigger] positions@[j]).bounded(
                    crate::MAX_COORD as int,
                ),
                forall|j: int| 0 <= j < i ==> (#[trigger] normals@[j]).bounded(
                    crate::MAX_COORD as int,
                ),
            decreases positions@.len() - i,
        {
            if !coord_ok(&positions[i]) || !coord_ok(&normals[i]) {
                return Err(MeshError::CoordinateOutOfRange);
            }
            i = i + 1;
        }
        let mut i: usize = 0;
        while i < indices.len()
            invariant
                i <= indices@.len(),
                forall|j: int| 0 <= j < i ==> (#[trigger] indices@[j]) < positions@.len(),
            decreases indices@.len() - i,
        {
            if indices[i] as usize >= positions.len() {
                return Err(MeshError::IndexOutOfRange);
            }
            i = i + 1;
        }
        let face_count: usize = indices.len() / 3;
        let mut faces: Vec<Vec<u32>> = Vec::new();
        let mut f: usize = 0;
        while f < face_count
            invariant
                f <= face_count,
                face_count == indices@.len() / 3,
                indices@.len() % 3 == 0,
                faces@.len() == f,
                forall|j: int| 0 <= j < f ==> (#[trigger] faces@[j])@ == face_triples(indices@)[j],
            decreases face_count - f,
        {
            let mut face: Vec<u32> = Vec::new();
            face.push(indices[3 * f]);
            face.push(indices[3 * f + 1]);
            face.push(indices[3 * f + 2]);
            proof {
                assert(face@ =~= face_triples(indices@)[f as int]);
            }
            faces.push(face);
            f = f + 1;
        }
        let mesh = EditableMesh { positions, normals, faces };
        proof {
            assert(mesh.spec_faces() =~= face_triples(indices@));
        }
        Ok(mesh)
    }

    /// Builds the mesh from attributes alone: vertices are taken three at a
    /// time as sequential triangles.
    pub fn from_triangle_soup(positions: Vec<Vec3i>, normals: Vec<Vec3i>) -> (r: Result<
        EditableMesh,
        MeshError,
    >)
        ensures
            r is Ok <==> triangles_ok(
                positions@,
                normals@,
                Seq::new(positions@.len(), |i: int| i as u32),
            ),
            r is Ok ==> {
                &&& r->Ok_0.positions@ == positions@
                &&& r->Ok_0.normals@ == normals@
                &&& r->Ok_0.spec_faces() == face_triples(
                    Seq::new(positions@.len(), |i: int| i as u32),
                )
                &&& r->Ok_0.wf()
            },
    {
        if positions.len() > u32::MAX as usize {
            // The explicit check keeps every synthesized index exact.
            proof {
                assert(!triangles_ok(
                    positions@,
                    normals@,
                    Seq::new(positions@.len(), |i: int| i as u32),
                ));
            }
            return Err(MeshError::TooLarge);
        }
        let mut indices: Vec<u32> = Vec::new();
        let mut i: usize = 0;
        while i < positions.len()
            invariant
                i <= positions@.len() <= u32::MAX,
                indices@.len() == i,
                forall|j: int| 0 <= j < i ==> (#[trigger] indices@[j]) == j as u32,
            decreases positions@.len() - i,
        {
            indices.push(i as u32);
            i = i + 1;
        }
        proof {
            assert(indices@ =~= Seq::new(positions@.len(), |i: int| i as u32));
        }
        Self::from_triangles(positions, normals, indices)
    }

    pub fn face_count(&self) -> (r: usize)
        ensures
            r == self.num_faces(),
    {
        self.faces.len()
    }

    pub fn vertex_count(&self) -> (r: usize)
        ensures
            r == self.num_vertices(),
    {
        self.positions.len()
    }

    /// The position of one vertex.
    pub fn position(&self, v: u32) -> (r: Vec3i)
        requires
            v < self.num_vertices(),
        ensures
            r == self.positions@[v as int],
    {
        self.positions[v as usize]
    }

    /// The normal of one vertex.
    pub fn normal(&self, v: u32) -> (r: Vec3i)
        requires
            v < self.positions@.len(),
            self.positions@.len() == self.normals@.len(),
        ensures
            r == self.normals@[v as int],
    {
        self.normals[v as usize]
    }

    /// The positions of one face's boundary vertices, in winding order.
    pub fn face_positions(&self, f: u32) -> (r: Vec<Vec3i>)
        requires
            self.wf(),
            f < self.num_faces(),
        ensures
            r@ == self.spec_face_positions(f as int),
    {
        let face: &Vec<u32> = &self.faces[f as usize];
        let mut out: Vec<Vec3i> = Vec::new();
        let mut k: usize = 0;
        while k < face.len()
            invariant
                self.wf(),
                f < self.num_faces(),
                face == &self.faces@[f as int],
                k <= face@.len(),
                out@.len() == k,
                forall|j: int| 0 <= j < k ==> (#[trigger] out@[j]) == self.positions@[face@[j]
                    as int],
            decreases face@.len() - k,
        {
            out.push(self.positions[face[k] as usize]);
            k = k + 1;
        }
        proof {
            assert(out@ =~= self.spec_face_positions(f as int));
        }
        out
    }

    /// The positions of face `f`'s vertices, in winding order.
    pub open spec fn spec_face_positions(self, f: int) -> Seq<Vec3i> {
        Seq::new(self.faces@[f]@.len(), |k: int| self.positions@[self.faces@[f]@[k] as int])
    }
}

impl EditableMesh {
    /// The box of the first `k` boundary vertices of face `f` (`k >= 1`).
    pub open spec fn spec_face_box_prefix(self, f: int, k: int) -> Aabb
        decreases k,
    {
        if k <= 1 {
            Aabb::spec_from_point(self.positions@[self.faces@[f]@[0] as int])
        } else {
            Aabb::spec_merge(
                self.spec_face_box_prefix(f, k - 1),
                Aabb::spec_from_point(self.positions@[self.faces@[f]@[k - 1] as int]),
            )
        }
    }

    /// The tight axis-aligned box of face `f`'s vertices.
    pub open spec fn spec_face_box(self, f: int) -> Aabb {
        self.spec_face_box_prefix(f, self.faces@[f]@.len() as int)
    }

    /// Sum of the first `k` boundary vertex positions of face `f`.
    pub open spec fn spec_vert_sum(self, f: int, k: int) -> V3
        decreases k,
    {
        if k <= 0 {
            V3 { x: 0, y: 0, z: 0 }
        } else {
            self.spec_vert_sum(f, k - 1).add(
                self.positions@[self.faces@[f]@[k - 1] as int].view(),
            )
        }
    }

    /// The centroid of face `f`: the flooring average of its vertices.
    pub open spec fn spec_centroid(self, f: int) -> V3 {
        let m = self.faces@[f]@.len() as int;
        let s = self.spec_vert_sum(f, m);
        V3 { x: s.x / m, y: s.y / m, z: s.z / m }
    }

    /// `v` holds the centroid of face `f`.
    pub open spec fn centroid_matches(self, f: int, v: Vec3i) -> bool {
        &&& v.x == self.spec_centroid(f).x
        &&& v.y == self.spec_centroid(f).y
        &&& v.z == self.spec_centroid(f).z
    }

    /// The prefix boxes are well formed, bounded, nested, and contain the
    /// vertices they were built from.
    pub proof fn lemma_face_box_prefix(self, f: int, k: int)
        requires
            self.wf(),
            0 <= f < self.num_faces(),
            1 <= k <= self.faces@[f]@.len(),
        ensures
            self.spec_face_box_prefix(f, k).wf(),
            self.spec_face_box_prefix(f, k).bounded(crate::MAX_COORD as int),
            forall|j: int| 0 <= j < k ==> self.spec_face_box_prefix(f, k).contains_point(
                #[trigger] self.positions@[self.faces@[f]@[j] as int],
            ),
        decreases k,
    {
        if k > 1 {
            self.lemma_face_box_prefix(f, k - 1);
        }
    }

    /// The face box contains every boundary vertex of its face.
    pub proof fn lemma_face_box(self, f: int)
        requires
            self.wf(),
            0 <= f < self.num_faces(),
        ensures
            self.spec_face_box(f).wf(),
            self.spec_face_box(f).bounded(crate::MAX_COORD as int),
            forall|j: int| 0 <= j < self.faces@[f]@.len() ==> self.spec_face_box(
                f,
            ).contains_point(#[trigger] self.positions@[self.faces@[f]@[j] as int]),
    {
        self.lemma_face_box_prefix(f, self.faces@[f]@.len() as int);
    }

    /// The vertex sums stay between `k` times the corners of any box that
    /// holds every vertex of the face.
    proof fn lemma_vert_sum_in_box(self, f: int, k: int, b: Aabb)
        requires
            self.wf(),
            0 <= f < self.num_faces(),
            0 <= k <= self.faces@[f]@.len(),
            forall|j: int| 0 <= j < self.faces@[f]@.len() ==> b.contains_point(
                #[trigger] self.positions@[self.faces@[f]@[j] as int],
            ),
        ensures
            k * b.min.x <= self.spec_vert_sum(f, k).x <= k * b.max.x,
            k * b.min.y <= self.spec_vert_sum(f, k).y <= k * b.max.y,
            k * b.min.z <= self.spec_vert_sum(f, k).z <= k * b.max.z,
        decreases k,
    {
        if k > 0 {
            self.lemma_vert_sum_in_box(f, k - 1, b);
            assert(k * b.min.x == (k - 1) * b.min.x + b.min.x) by (nonlinear_arith);
            assert(k * b.max.x == (k - 1) * b.max.x + b.max.x) by (nonlinear_arith);
            assert(k * b.min.y == (k - 1) * b.min.y + b.min.y) by (nonlinear_arith);
            assert(k * b.max.y == (k - 1) * b.max.y + b.max.y) by (nonlinear_arith);
            assert(k * b.min.z == (k - 1) * b.min.z + b.min.z) by (nonlinear_arith);
            assert(k * b.max.z == (k - 1) * b.max.z + b.max.z) by (nonlinear_arith);
        }
    }

    /// A face's centroid lies inside any box that holds all the face's
    /// vertices — in particular inside the face box and every tree box
    /// above it.
    pub proof fn lemma_centroid_in_box(self, f: int, b: Aabb)
        requires
            self.wf(),
            0 <= f < self.num_faces(),
            forall|j: int| 0 <= j < self.faces@[f]@.len() ==> b.contains_point(
                #[trigger] self.positions@[self.faces@[f]@[j] as int],
            ),
        ensures
            b.min.x <= self.spec_centroid(f).x <= b.max.x,
            b.min.y <= self.spec_centroid(f).y <= b.max.y,
            b.min.z <= self.spec_centroid(f).z <= b.max.z,
    {
        let m = self.faces@[f]@.len() as int;
        self.lemma_vert_sum_in_box(f, m, b);
        lemma_avg_in_range(self.spec_vert_sum(f, m).x, m, b.min.x as int, b.max.x as int);
        lemma_avg_in_range(self.spec_vert_sum(f, m).y, m, b.min.y as int, b.max.y as int);
        lemma_avg_in_range(self.spec_vert_sum(f, m).z, m, b.min.z as int, b.max.z as int);
    }

    /// The tight box of face `f`, computed by folding its vertices.
    pub fn face_box(&self, f: u32) -> (r: Aabb)
        requires
            self.wf(),
            f < self.num_faces(),
        ensures
            r == self.spec_face_box(f as int),
            r.wf(),
            r.bounded(crate::MAX_COORD as int),
    {
        let face: &Vec<u32> = &self.faces[f as usize];
        let mut r = Aabb::from_point(self.positions[face[0] as usize]);
        let mut k: usize = 1;
        while k < face.len()
            invariant
                1 <= k <= face@.len(),
                r == self.spec_face_box_prefix(f as int, k as int),
            decreases face@.len() - k,
        {
            let pt = Aabb::from_point(self.positions[face[k] as usize]);
            r = r.merge(&pt);
            k = k + 1;
        }
        proof {
            self.lemma_face_box(f as int);
        }
        r
    }

    /// The centroid of face `f`: the flooring average of its vertices.
    pub fn centroid(&self, f: u32) -> (r: Vec3i)
        requires
            self.wf(),
            f < self.num_faces(),
        ensures
            self.centroid_matches(f as int, r),
            self.spec_face_box(f as int).contains_point(r),
            r.bounded(crate::MAX_COORD as int),
    {
        let face: &Vec<u32> = &self.faces[f as usize];
        let count: usize = face.len();
        let mut sx: i64 = 0;
        let mut sy: i64 = 0;
        let mut sz: i64 = 0;
        let mut k: usize = 0;
        while k < count
            invariant
                0 <= k <= count == self.faces@[f as int]@.len(),
                sx == self.spec_vert_sum(f as int, k as int).x,
                sy == self.spec_vert_sum(f as int, k as int).y,
                sz == self.spec_vert_sum(f as int, k as int).z,
                -(k as int) * (crate::MAX_COORD as int) <= sx <= (k as int) * (
                crate::MAX_COORD as int),
                -(k as int) * (crate::MAX_COORD as int) <= sy <= (k as int) * (
                crate::MAX_COORD as int),
                -(k as int) * (crate::MAX_COORD as int) <= sz <= (k as int) * (
                crate::MAX_COORD as int),
            decreases count - k,
        {
            let p = self.positions[face[k] as usize];
            proof {
                assert((k + 1) as int * (crate::MAX_COORD as int) == (k as int) * (
                crate::MAX_COORD as int) + crate::MAX_COORD) by (nonlinear_arith);
            }
            sx = sx + p.x;
            sy = sy + p.y;
            sz = sz + p.z;
            k = k + 1;
        }
        let r = Vec3i {
            x: avg_coord(sx, count),
            y: avg_coord(sy, count),
            z: avg_coord(sz, count),
        };
        proof {
            self.lemma_face_box(f as int);
            self.lemma_centroid_in_box(f as int, self.spec_face_box(f as int));
        }
        r
    }

    /// Per-face tight boxes, indexed by face handle.
    pub fn face_boxes(&self) -> (r: Vec<Aabb>)
        requires
            self.wf(),
        ensures
            r@.len() == self.num_faces(),
            forall|f: int| 0 <= f < self.num_faces() ==> (#[trigger] r@[f])
                == self.spec_face_box(f),
    {
        let n = self.faces.len();
        let mut r: Vec<Aabb> = Vec::new();
        let mut f: usize = 0;
        while f < n
            invariant
                f <= n == self.num_faces(),
                r@.len() == f,
                forall|j: int| 0 <= j < f ==> (#[trigger] r@[j]) == self.spec_face_box(j),
            decreases n - f,
        {
            let b = self.face_box(f as u32);
            r.push(b);
            f = f + 1;
        }
        r
    }

    /// Per-face centroids, indexed by face handle.
    pub fn centroids(&self) -> (r: Vec<Vec3i>)
        requires
            self.wf(),
        ensures
            r@.len() == self.num_faces(),
            forall|f: int| 0 <= f < self.num_faces() ==> self.centroid_matches(
                f,
                #[trigger] r@[f],
            ),
    {
        let n = self.faces.len();
        let mut r: Vec<Vec3i> = Vec::new();
        let mut f: usize = 0;
        while f < n
            invariant
                f <= n == self.num_faces(),
                r@.len() == f,
                forall|j: int| 0 <= j < f ==> self.centroid_matches(j, #[trigger] r@[j]),
            decreases n - f,
        {
            let c = self.centroid(f as u32);
            r.push(c);
            f = f + 1;
        }
        r
    }
}

/// Flooring average of a sum of `count` coordinates, each within
/// `MAX_COORD`; stays within the range of its terms.
fn avg_coord(sum: i64, count: usize) -> (r: i64)
    requires
        1 <= count <= u32::MAX,
        -(count as int) * (crate::MAX_COORD as int) <= sum <= (count as int) * (
        crate::MAX_COORD as int),
    ensures
        r == sum as int / count as int,
{
    proof {
        lemma_mul_bound2(count as int, crate::MAX_COORD as int, 0x100000000, 0x10000);
    }
    let shifted: i64 = sum + (count as i64) * crate::MAX_COORD;
    proof {
        lemma_div_is_ordered(0, shifted as int, count as int);
        lemma_div_is_ordered(shifted as int, (count as int) * 131072, count as int);
        lemma_div_multiples_vanish(131072, count as int);
        lemma_hoist_over_denominator(sum as int, crate::MAX_COORD as int, count as nat);
    }
    let q: i64 = ((shifted as u64) / (count as u64)) as i64 - crate::MAX_COORD;
    q
}

/// `k * lo <= s <= k * hi` with `k >= 1` pins the flooring average
/// `s / k` inside `[lo, hi]`.
proof fn lemma_avg_in_range(s: int, k: int, lo: int, hi: int)
    requires
        1 <= k,
        k * lo <= s <= k * hi,
    ensures
        lo <= s / k <= hi,
{
    lemma_div_is_ordered(k * lo, s, k);
    lemma_div_is_ordered(s, k * hi, k);
    lemma_div_multiples_vanish(lo, k);
    lemma_div_multiples_vanish(hi, k);
}

fn coord_ok(v: &Vec3i) -> (r: bool)
    ensures
        r == v.bounded(crate::MAX_COORD as int),
{
    -crate::MAX_COORD <= v.x && v.x <= crate::MAX_COORD && -crate::MAX_COORD <= v.y && v.y
        <= crate::MAX_COORD && -crate::MAX_COORD <= v.z && v.z <= crate::MAX_COORD
}

} // verus!
