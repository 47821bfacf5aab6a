//! Ray queries against the hierarchy: the exact slab test for boxes, the
//! coarse (box-level) traversal, the precise (face-level) traversal, and
//! the brute-force reference that tests every face.
//!
//! All queries take a ray already rotated into the mesh's local
//! orientation frame, and a `Placement` whose translation and scale are
//! applied to the geometry being tested, as `Placement` documents.

use vstd::prelude::*;
use crate::vec3::Vec3i;
use crate::aabb::Aabb;
use crate::ratio::Ratio;
use crate::tri::Ray;
use crate::xform::Placement;
use crate::mesh::EditableMesh;
use crate::bvh::Node;
use crate::bvh::BoundingVolumeHierarchy;
use crate::bvh::node_ok;
use crate::bvh::tree_ok;

verus! {

/// At parameter `tn / td` the ray's coordinate on one axis lies between
/// `mn` and `mx` (stated multiplied through by the positive `td`).
pub open spec fn axis_ok(o: int, d: int, mn: int, mx: int, tn: int, td: int) -> bool {
    td * mn <= td * o + tn * d && td * o + tn * d <= td * mx
}

/// At parameter `tn / td` (with `td > 0`) the ray sits inside box `b`, and
/// the parameter lies within `[0, ray.max]`.
pub open spec fn ray_in_box_at(b: Aabb, ray: Ray, tn: int, td: int) -> bool {
    &&& td > 0
    &&& 0 <= tn
    &&& tn <= (ray.max as int) * td
    &&& axis_ok(ray.origin.x as int, ray.direction.x as int, b.min.x as int, b.max.x as int, tn, td)
    &&& axis_ok(ray.origin.y as int, ray.direction.y as int, b.min.y as int, b.max.y as int, tn, td)
    &&& axis_ok(ray.origin.z as int, ray.direction.z as int, b.min.z as int, b.max.z as int, tn, td)
}

/// The ray crosses box `b` within its range.
pub open spec fn aabb_hit(b: Aabb, ray: Ray) -> bool {
    exists|tn: int, td: int| #[trigger] ray_in_box_at(b, ray, tn, td)
}

/// Parameter `tn / td` lies in the window `[lo, hi]` (cross-multiplied).
pub open spec fn t_in_window(lo: Ratio, hi: Ratio, tn: int, td: int) -> bool {
    lo.num * td <= tn * lo.den && tn * hi.den <= hi.num * td
}

/// Cross-multiplied `<=` on positive-denominator fractions is transitive.
pub proof fn lemma_cross_trans(an: int, ad: int, bn: int, bd: int, cn: int, cd: int)
    by (nonlinear_arith)
    requires
        ad > 0,
        bd > 0,
        cd > 0,
        an * bd <= bn * ad,
        bn * cd <= cn * bd,
    ensures
        an * cd <= cn * ad,
{
}

proof fn lemma_mul_pos_le(c: int, a: int, b: int) by (nonlinear_arith)
    requires
        c > 0,
    ensures
        c * a <= c * b <==> a <= b,
        a * c <= b * c <==> a <= b,
{
}

/// Narrows the window `[lo, hi]` by one axis of the slab test. `None`
/// means no parameter at all satisfies this axis (the ray runs parallel to
/// the slab, outside it); otherwise the new window admits exactly the
/// parameters the old window admitted that also satisfy this axis.
fn clip_axis(o: i64, d: i64, mn: i64, mx: i64, lo: Ratio, hi: Ratio) -> (r: Option<(Ratio, Ratio)>)
    requires
        lo.wf(),
        hi.wf(),
        lo.spec_nonneg(),
        -crate::MAX_COORD <= o <= crate::MAX_COORD,
        -crate::MAX_COORD <= d <= crate::MAX_COORD,
        -crate::MAX_PLACED <= mn <= crate::MAX_PLACED,
        -crate::MAX_PLACED <= mx <= crate::MAX_PLACED,
    ensures
        r is None ==> forall|tn: int, td: int| td > 0 ==> !axis_ok(
            o as int,
            d as int,
            mn as int,
            mx as int,
            tn,
            td,
        ),
        r is Some ==> {
            &&& r->Some_0.0.wf()
            &&& r->Some_0.1.wf()
            &&& r->Some_0.0.spec_nonneg()
            &&& forall|tn: int, td: int| td > 0 ==> (#[trigger] t_in_window(
                r->Some_0.0,
                r->Some_0.1,
                tn,
                td,
            ) <==> t_in_window(lo, hi, tn, td) && axis_ok(
                o as int,
                d as int,
                mn as int,
                mx as int,
                tn,
                td,
            ))
        },
{
    if d == 0 {
        if o < mn || o > mx {
            proof {
                assert forall|tn: int, td: int| td > 0 implies !axis_ok(
                    o as int,
                    d as int,
                    mn as int,
                    mx as int,
                    tn,
                    td,
                ) by {
                    lemma_mul_pos_le(td, mn as int, o as int);
                    lemma_mul_pos_le(td, o as int, mx as int);
                }
            }
            return None;
        }
        proof {
            assert forall|tn: int, td: int| td > 0 implies (t_in_window(lo, hi, tn, td)
                <==> t_in_window(lo, hi, tn, td) && axis_ok(
                o as int,
                d as int,
                mn as int,
                mx as int,
                tn,
                td,
            )) by {
                lemma_mul_pos_le(td, mn as int, o as int);
                lemma_mul_pos_le(td, o as int, mx as int);
            }
        }
        return Some((lo, hi));
    }
    let (alo, ahi) = if d > 0 {
        (
            Ratio { num: (mn as i128) - (o as i128), den: d as i128 },
            Ratio { num: (mx as i128) - (o as i128), den: d as i128 },
        )
    } else {
        (
            Ratio { num: (o as i128) - (mx as i128), den: -(d as i128) },
            Ratio { num: (o as i128) - (mn as i128), den: -(d as i128) },
        )
    };
    let lo2 = if lo.lt(&alo) {
        proof {
            lemma_new_lo_nonneg(lo, alo);
        }
        alo
    } else {
        lo
    };
    let hi2 = if ahi.lt(&hi) {
        ahi
    } else {
        hi
    };
    proof {
        assert forall|tn: int, td: int| td > 0 implies (#[trigger] t_in_window(lo2, hi2, tn, td)
            <==> t_in_window(lo, hi, tn, td) && axis_ok(
            o as int,
            d as int,
            mn as int,
            mx as int,
            tn,
            td,
        )) by {
            // The axis constraint is literally the window constraint of
            // `[alo, ahi]`, rearranged; the rest is max/min reasoning.
            lemma_axis_rearrange(o as int, d as int, mn as int, mx as int, tn, td);
            if t_in_window(lo2, hi2, tn, td) {
                if lo.spec_lt(alo) {
                    lemma_cross_trans(lo.num as int, lo.den as int, alo.num as int, alo.den as int, tn, td);
                } else {
                    lemma_cross_trans(alo.num as int, alo.den as int, lo.num as int, lo.den as int, tn, td);
                }
                if ahi.spec_lt(hi) {
                    lemma_cross_trans(tn, td, ahi.num as int, ahi.den as int, hi.num as int, hi.den as int);
                } else {
                    lemma_cross_trans(tn, td, hi.num as int, hi.den as int, ahi.num as int, ahi.den as int);
                }
            }
        }
    }
    Some((lo2, hi2))
}

/// Multiplying the slab inequalities through by the positive denominator
/// and moving the origin across is sound in both direction signs.
proof fn lemma_axis_rearrange(o: int, d: int, mn: int, mx: int, tn: int, td: int)
    by (nonlinear_arith)
    requires
        td > 0,
    ensures
        d > 0 ==> ((td * mn <= td * o + tn * d && td * o + tn * d <= td * mx) <==> ((mn - o) * td
            <= tn * d && tn * d <= (mx - o) * td)),
        d < 0 ==> ((td * mn <= td * o + tn * d && td * o + tn * d <= td * mx) <==> ((o - mx) * td
            <= tn * (-d) && tn * (-d) <= (o - mn) * td)),
{
}

/// A rational larger than a non-negative one has a positive numerator.
proof fn lemma_new_lo_nonneg(lo: Ratio, alo: Ratio) by (nonlinear_arith)
    requires
        lo.den > 0,
        alo.den > 0,
        lo.num >= 0,
        lo.spec_lt(alo),
    ensures
        alo.num > 0,
{
}

/// The exact slab test: the earliest parameter in `[0, ray.max]` at which
/// the ray is inside `b`, or `None` when there is none. The returned entry
/// is itself such a parameter and is minimal among them.
pub fn ray_box_entry(b: &Aabb, ray: &Ray) -> (r: Option<Ratio>)
    requires
        b.wf(),
        b.bounded(crate::MAX_PLACED as int),
        ray.wf(),
    ensures
        r is Some <==> aabb_hit(*b, *ray),
        r is Some ==> {
            &&& r->Some_0.wf()
            &&& r->Some_0.spec_nonneg()
            &&& ray_in_box_at(*b, *ray, r->Some_0.num as int, r->Some_0.den as int)
            &&& forall|tn: int, td: int| #[trigger] ray_in_box_at(*b, *ray, tn, td)
                ==> r->Some_0.num * td <= tn * r->Some_0.den
        },
{
    let lo0 = Ratio { num: 0, den: 1 };
    let hi0 = Ratio { num: ray.max as i128, den: 1 };
    let w1 = clip_axis(ray.origin.x, ray.direction.x, b.min.x, b.max.x, lo0, hi0);
    let (lo1, hi1) = match w1 {
        Some(w) => w,
        None => {
            return None;
        },
    };
    let w2 = clip_axis(ray.origin.y, ray.direction.y, b.min.y, b.max.y, lo1, hi1);
    let (lo2, hi2) = match w2 {
        Some(w) => w,
        None => {
            return None;
        },
    };
    let w3 = clip_axis(ray.origin.z, ray.direction.z, b.min.z, b.max.z, lo2, hi2);
    let (lo3, hi3) = match w3 {
        Some(w) => w,
        None => {
            return None;
        },
    };
    proof {
        assert forall|tn: int, td: int| td > 0 implies (#[trigger] ray_in_box_at(*b, *ray, tn, td)
            <==> t_in_window(lo3, hi3, tn, td)) by {
            assert(t_in_window(lo0, hi0, tn, td) <==> (0 <= tn && tn <= (ray.max as int) * td));
            assert(t_in_window(lo1, hi1, tn, td) <==> t_in_window(lo0, hi0, tn, td) && axis_ok(
                ray.origin.x as int,
                ray.direction.x as int,
                b.min.x as int,
                b.max.x as int,
                tn,
                td,
            ));
            assert(t_in_window(lo2, hi2, tn, td) <==> t_in_window(lo1, hi1, tn, td) && axis_ok(
                ray.origin.y as int,
                ray.direction.y as int,
                b.min.y as int,
                b.max.y as int,
                tn,
                td,
            ));
            assert(t_in_window(lo3, hi3, tn, td) <==> t_in_window(lo2, hi2, tn, td) && axis_ok(
                ray.origin.z as int,
                ray.direction.z as int,
                b.min.z as int,
                b.max.z as int,
                tn,
                td,
            ));
        }
    }
    if lo3.le(&hi3) {
        proof {
            assert(t_in_window(lo3, hi3, lo3.num as int, lo3.den as int));
            assert(ray_in_box_at(*b, *ray, lo3.num as int, lo3.den as int));
            assert forall|tn: int, td: int| #[trigger] ray_in_box_at(*b, *ray, tn, td) implies
                lo3.num * td <= tn * lo3.den by {
                assert(t_in_window(lo3, hi3, tn, td));
            }
        }
        Some(lo3)
    } else {
        proof {
            assert forall|tn: int, td: int| !(#[trigger] ray_in_box_at(*b, *ray, tn, td)) by {
                if ray_in_box_at(*b, *ray, tn, td) {
                    assert(t_in_window(lo3, hi3, tn, td));
                    lemma_cross_trans(
                        lo3.num as int,
                        lo3.den as int,
                        tn,
                        td,
                        hi3.num as int,
                        hi3.den as int,
                    );
                }
            }
        }
        None
    }
}

/// A point inside a box stays inside the placed box.
pub proof fn lemma_spec_place_point_in_box(p: Placement, b: Aabb, v: Vec3i)
    requires
        p.wf(),
        b.contains_point(v),
        b.bounded(crate::MAX_COORD as int),
        v.bounded(crate::MAX_COORD as int),
    ensures
        spec_place_box(p, b).contains_point(spec_place_point(p, v)),
{
    crate::xform::lemma_place_coord_monotone(
        b.min.x as int, v.x as int, p.scale.x as int, p.translation.x as int);
    crate::xform::lemma_place_coord_monotone(
        v.x as int, b.max.x as int, p.scale.x as int, p.translation.x as int);
    crate::xform::lemma_place_coord_monotone(
        b.min.y as int, v.y as int, p.scale.y as int, p.translation.y as int);
    crate::xform::lemma_place_coord_monotone(
        v.y as int, b.max.y as int, p.scale.y as int, p.translation.y as int);
    crate::xform::lemma_place_coord_monotone(
        b.min.z as int, v.z as int, p.scale.z as int, p.translation.z as int);
    crate::xform::lemma_place_coord_monotone(
        v.z as int, b.max.z as int, p.scale.z as int, p.translation.z as int);
    lemma_place_coord_bounds(b.min.x as int, p.scale.x as int, p.translation.x as int);
    lemma_place_coord_bounds(b.max.x as int, p.scale.x as int, p.translation.x as int);
    lemma_place_coord_bounds(v.x as int, p.scale.x as int, p.translation.x as int);
    lemma_place_coord_bounds(b.min.y as int, p.scale.y as int, p.translation.y as int);
    lemma_place_coord_bounds(b.max.y as int, p.scale.y as int, p.translation.y as int);
    lemma_place_coord_bounds(v.y as int, p.scale.y as int, p.translation.y as int);
    lemma_place_coord_bounds(b.min.z as int, p.scale.z as int, p.translation.z as int);
    lemma_place_coord_bounds(b.max.z as int, p.scale.z as int, p.translation.z as int);
    lemma_place_coord_bounds(v.z as int, p.scale.z as int, p.translation.z as int);
}

/// A face hit happens inside the placed image of any box that holds the
/// face's own box — in particular the owning leaf's box: the pruning
/// tests of the traversals cannot lose a face hit.
pub proof fn lemma_face_hit_in_leaf_box(
    mesh: EditableMesh,
    p: Placement,
    ray: Ray,
    f: int,
    leafbox: Aabb,
    tn: int,
    td: int,
)
    requires
        mesh.wf(),
        p.wf(),
        0 <= f < mesh.num_faces(),
        leafbox.contains_box(mesh.spec_face_box(f)),
        leafbox.bounded(crate::MAX_COORD as int),
        spec_face_hit(mesh, p, ray, f) == Some((tn, td)),
    ensures
        ray_in_box_at(spec_place_box(p, leafbox), ray, tn, td),
{
    let pv = crate::tri::spec_placed_seq(p, mesh.spec_face_positions(f));
    crate::tri::lemma_fan_first_tri(pv, ray, 1);
    let j = choose|j: int|
        1 <= j && 1 <= j && j + 1 < pv.len() && (#[trigger] (crate::tri::Triangle3d {
            v0: pv[0],
            v1: pv[j],
            v2: pv[j + 1],
        }).spec_hit(ray)) == Some((tn, td));
    let tri = crate::tri::Triangle3d { v0: pv[0], v1: pv[j], v2: pv[j + 1] };
    mesh.lemma_face_box(f);
    assert forall|q: int| 0 <= q < pv.len() implies spec_place_box(p, leafbox).contains_point(
        #[trigger] pv[q],
    ) by {
        let vert = mesh.spec_face_positions(f)[q];
        assert(mesh.spec_face_box(f).contains_point(
            mesh.positions@[mesh.faces@[f]@[q] as int],
        ));
        assert(mesh.positions@[mesh.faces@[f]@[q] as int].bounded(crate::MAX_COORD as int));
        lemma_spec_place_point_in_box(p, leafbox, vert);
        assert(pv[q] == spec_place_point(p, vert));
    }
    crate::geom::lemma_tri_hit_in_box(tri, ray, spec_place_box(p, leafbox), tn, td);
}

/// Nodes in the array a subtree spans, one for a leaf or anything
/// malformed; children sit at higher indices, so this is well defined.
pub open spec fn subtree_size(nodes: Seq<Node>, i: int) -> int
    decreases nodes.len() - i,
{
    if !(0 <= i < nodes.len()) {
        1
    } else if nodes[i].spec_is_leaf() {
        1
    } else if i < nodes[i].spec_left() < nodes.len() && i < nodes[i].spec_right() < nodes.len() {
        1 + subtree_size(nodes, nodes[i].spec_left()) + subtree_size(nodes, nodes[i].spec_right())
    } else {
        1
    }
}

pub proof fn lemma_subtree_size_pos(nodes: Seq<Node>, i: int)
    ensures
        subtree_size(nodes, i) >= 1,
    decreases nodes.len() - i,
{
    if 0 <= i < nodes.len() && !nodes[i].spec_is_leaf() && i < nodes[i].spec_left() < nodes.len()
        && i < nodes[i].spec_right() < nodes.len() {
        lemma_subtree_size_pos(nodes, nodes[i].spec_left());
        lemma_subtree_size_pos(nodes, nodes[i].spec_right());
    }
}

/// Total subtree size of the entries still on the traversal stack; the
/// traversal loops' termination measure.
pub open spec fn stack_weight(nodes: Seq<Node>, st: Seq<u32>) -> int
    decreases st.len(),
{
    if st.len() == 0 {
        0
    } else {
        stack_weight(nodes, st.drop_last()) + subtree_size(nodes, st.last() as int)
    }
}

pub proof fn lemma_stack_weight_nonneg(nodes: Seq<Node>, st: Seq<u32>)
    ensures
        stack_weight(nodes, st) >= 0,
    decreases st.len(),
{
    if st.len() > 0 {
        lemma_stack_weight_nonneg(nodes, st.drop_last());
        lemma_subtree_size_pos(nodes, st.last() as int);
    }
}

pub proof fn lemma_stack_weight_push(nodes: Seq<Node>, st: Seq<u32>, x: u32)
    ensures
        stack_weight(nodes, st.push(x)) == stack_weight(nodes, st) + subtree_size(nodes, x as int),
{
    assert(st.push(x).drop_last() =~= st);
    assert(st.push(x).last() == x);
}

/// The structure-only part of tree soundness: what the coarse traversal,
/// which never looks at faces, needs of the node array.
pub open spec fn wf_shape(nodes: Seq<Node>) -> bool {
    &&& 1 <= nodes.len()
    &&& forall|i: int| 0 <= i < nodes.len() ==> #[trigger] shape_ok(nodes, i)
}

pub open spec fn shape_ok(nodes: Seq<Node>, i: int) -> bool {
    let nd = nodes[i];
    &&& nd.spec_aabb().wf()
    &&& nd.spec_aabb().bounded(crate::MAX_COORD as int)
    &&& !nd.spec_is_leaf() ==> {
        &&& i < nd.spec_left() < nodes.len()
        &&& i < nd.spec_right() < nodes.len()
        &&& nd.spec_left() != nd.spec_right()
        &&& nd.spec_aabb().contains_box(nodes[nd.spec_left()].spec_aabb())
        &&& nd.spec_aabb().contains_box(nodes[nd.spec_right()].spec_aabb())
    }
}

/// Full soundness implies the structural part.
pub proof fn lemma_tree_ok_shape(mesh: EditableMesh, nodes: Seq<Node>)
    requires
        tree_ok(mesh, nodes),
    ensures
        wf_shape(nodes),
{
    assert forall|i: int| 0 <= i < nodes.len() implies #[trigger] shape_ok(nodes, i) by {
        assert(node_ok(mesh, nodes, i));
    }
}

/// Being inside a box at some parameter carries over to any enclosing box.
pub proof fn lemma_in_box_mono(inner: Aabb, outer: Aabb, ray: Ray, tn: int, td: int)
    requires
        outer.contains_box(inner),
        ray_in_box_at(inner, ray, tn, td),
    ensures
        ray_in_box_at(outer, ray, tn, td),
{
    lemma_mul_pos_le(td, outer.min.x as int, inner.min.x as int);
    lemma_mul_pos_le(td, inner.max.x as int, outer.max.x as int);
    lemma_mul_pos_le(td, outer.min.y as int, inner.min.y as int);
    lemma_mul_pos_le(td, inner.max.y as int, outer.max.y as int);
    lemma_mul_pos_le(td, outer.min.z as int, inner.min.z as int);
    lemma_mul_pos_le(td, inner.max.z as int, outer.max.z as int);
}

/// The constructive placed image of a point (`place_point` returns it).
pub open spec fn spec_place_point(p: Placement, v: Vec3i) -> Vec3i {
    Vec3i {
        x: crate::xform::place_coord(v.x as int, p.scale.x as int, p.translation.x as int) as i64,
        y: crate::xform::place_coord(v.y as int, p.scale.y as int, p.translation.y as int) as i64,
        z: crate::xform::place_coord(v.z as int, p.scale.z as int, p.translation.z as int) as i64,
    }
}

/// The constructive placed image of a box.
pub open spec fn spec_place_box(p: Placement, b: Aabb) -> Aabb {
    Aabb { min: spec_place_point(p, b.min), max: spec_place_point(p, b.max) }
}

/// Containment survives placement, constructively.
pub proof fn lemma_spec_place_contains(p: Placement, outer: Aabb, inner: Aabb)
    requires
        p.wf(),
        outer.contains_box(inner),
        outer.bounded(crate::MAX_COORD as int),
        inner.bounded(crate::MAX_COORD as int),
    ensures
        spec_place_box(p, outer).contains_box(spec_place_box(p, inner)),
{
    crate::xform::lemma_place_coord_monotone(
        outer.min.x as int, inner.min.x as int, p.scale.x as int, p.translation.x as int);
    crate::xform::lemma_place_coord_monotone(
        inner.max.x as int, outer.max.x as int, p.scale.x as int, p.translation.x as int);
    crate::xform::lemma_place_coord_monotone(
        outer.min.y as int, inner.min.y as int, p.scale.y as int, p.translation.y as int);
    crate::xform::lemma_place_coord_monotone(
        inner.max.y as int, outer.max.y as int, p.scale.y as int, p.translation.y as int);
    crate::xform::lemma_place_coord_monotone(
        outer.min.z as int, inner.min.z as int, p.scale.z as int, p.translation.z as int);
    crate::xform::lemma_place_coord_monotone(
        inner.max.z as int, outer.max.z as int, p.scale.z as int, p.translation.z as int);
    lemma_place_coord_bounds(outer.min.x as int, p.scale.x as int, p.translation.x as int);
    lemma_place_coord_bounds(outer.max.x as int, p.scale.x as int, p.translation.x as int);
    lemma_place_coord_bounds(inner.min.x as int, p.scale.x as int, p.translation.x as int);
    lemma_place_coord_bounds(inner.max.x as int, p.scale.x as int, p.translation.x as int);
    lemma_place_coord_bounds(outer.min.y as int, p.scale.y as int, p.translation.y as int);
    lemma_place_coord_bounds(outer.max.y as int, p.scale.y as int, p.translation.y as int);
    lemma_place_coord_bounds(inner.min.y as int, p.scale.y as int, p.translation.y as int);
    lemma_place_coord_bounds(inner.max.y as int, p.scale.y as int, p.translation.y as int);
    lemma_place_coord_bounds(outer.min.z as int, p.scale.z as int, p.translation.z as int);
    lemma_place_coord_bounds(outer.max.z as int, p.scale.z as int, p.translation.z as int);
    lemma_place_coord_bounds(inner.min.z as int, p.scale.z as int, p.translation.z as int);
    lemma_place_coord_bounds(inner.max.z as int, p.scale.z as int, p.translation.z as int);
}

/// A placed coordinate of bounded data stays within `MAX_PLACED`.
pub proof fn lemma_place_coord_bounds(v: int, s: int, t: int)
    requires
        -crate::MAX_COORD <= v <= crate::MAX_COORD,
        1 <= s <= crate::MAX_SCALE,
        -crate::MAX_COORD <= t <= crate::MAX_COORD,
    ensures
        -crate::MAX_PLACED <= crate::xform::place_coord(v, s, t) <= crate::MAX_PLACED,
{
    crate::ratio::lemma_mul_bound2(v, s, crate::MAX_COORD as int, crate::MAX_SCALE as int);
    vstd::arithmetic::div_mod::lemma_div_is_ordered(-268435456, v * s, 1024);
    vstd::arithmetic::div_mod::lemma_div_is_ordered(v * s, 268435456, 1024);
}

impl Node {
    /// The parameter at which the ray enters this node's placed box, or
    /// `None` when the box is never crossed within range.
    pub fn intersects_ray(&self, ray: &Ray, placement: &Placement) -> (r: Option<Ratio>)
        requires
            self.spec_aabb().wf(),
            self.spec_aabb().bounded(crate::MAX_COORD as int),
            ray.wf(),
            placement.wf(),
        ensures
            r is Some <==> aabb_hit(spec_place_box(*placement, self.spec_aabb()), *ray),
            r is Some ==> {
                &&& r->Some_0.wf()
                &&& r->Some_0.spec_nonneg()
                &&& ray_in_box_at(
                    spec_place_box(*placement, self.spec_aabb()),
                    *ray,
                    r->Some_0.num as int,
                    r->Some_0.den as int,
                )
                &&& forall|tn: int, td: int| #[trigger] ray_in_box_at(
                    spec_place_box(*placement, self.spec_aabb()),
                    *ray,
                    tn,
                    td,
                ) ==> r->Some_0.num * td <= tn * r->Some_0.den
            },
    {
        let placed = placement.place_box(&self.aabb());
        proof {
            assert(placed == spec_place_box(*placement, self.spec_aabb()));
        }
        ray_box_entry(&placed, ray)
    }
}

/// Node `k` lies in the subtree rooted at `i`.
pub open spec fn in_subtree(nodes: Seq<Node>, i: int, k: int) -> bool
    decreases nodes.len() - i,
{
    if !(0 <= i < nodes.len()) {
        false
    } else if i == k {
        true
    } else if nodes[i].spec_is_leaf() {
        false
    } else if i < nodes[i].spec_left() < nodes.len() && i < nodes[i].spec_right() < nodes.len() {
        in_subtree(nodes, nodes[i].spec_left(), k) || in_subtree(nodes, nodes[i].spec_right(), k)
    } else {
        false
    }
}

/// A subtree root's box contains every box below it.
pub proof fn lemma_subtree_box(nodes: Seq<Node>, i: int, k: int)
    requires
        wf_shape(nodes),
        in_subtree(nodes, i, k),
    ensures
        0 <= k < nodes.len(),
        nodes[i].spec_aabb().contains_box(nodes[k].spec_aabb()),
    decreases nodes.len() - i,
{
    assert(shape_ok(nodes, i));
    if i != k && !nodes[i].spec_is_leaf() {
        let l = nodes[i].spec_left();
        let r = nodes[i].spec_right();
        if in_subtree(nodes, l, k) {
            lemma_subtree_box(nodes, l, k);
            crate::aabb::lemma_contains_trans(
                nodes[i].spec_aabb(),
                nodes[l].spec_aabb(),
                nodes[k].spec_aabb(),
            );
        } else {
            lemma_subtree_box(nodes, r, k);
            crate::aabb::lemma_contains_trans(
                nodes[i].spec_aabb(),
                nodes[r].spec_aabb(),
                nodes[k].spec_aabb(),
            );
        }
    }
}

/// Rewriting a leaf as an internal node and appending two nodes does not
/// break any existing subtree path.
pub proof fn lemma_in_subtree_preserved(
    old_nodes: Seq<Node>,
    new_nodes: Seq<Node>,
    idx: int,
    a: int,
    k: int,
)
    requires
        new_nodes.len() == old_nodes.len() + 2,
        0 <= idx < old_nodes.len(),
        old_nodes[idx].spec_is_leaf(),
        forall|j: int| 0 <= j < old_nodes.len() && j != idx ==> new_nodes[j] == old_nodes[j],
        in_subtree(old_nodes, a, k),
    ensures
        in_subtree(new_nodes, a, k),
    decreases old_nodes.len() - a,
{
    if a != k && 0 <= a < old_nodes.len() && !old_nodes[a].spec_is_leaf() {
        let l = old_nodes[a].spec_left();
        let r = old_nodes[a].spec_right();
        if a < l < old_nodes.len() && a < r < old_nodes.len() {
            assert(new_nodes[a] == old_nodes[a]);
            if in_subtree(old_nodes, l, k) {
                lemma_in_subtree_preserved(old_nodes, new_nodes, idx, l, k);
            } else {
                lemma_in_subtree_preserved(old_nodes, new_nodes, idx, r, k);
            }
        }
    }
}

/// Some entry of the work stack still covers node `k`.
pub open spec fn on_stack(nodes: Seq<Node>, st: Seq<u32>, k: int) -> bool {
    exists|j: int| 0 <= j < st.len() && #[trigger] in_subtree(nodes, st[j] as int, k)
}

/// Every parameter at which the ray is inside leaf `k`'s placed box is no
/// closer than `closest`.
pub open spec fn leaf_done(
    nodes: Seq<Node>,
    p: Placement,
    ray: Ray,
    k: int,
    closest: Option<Ratio>,
) -> bool {
    forall|tn: int, td: int|
        #[trigger] ray_in_box_at(spec_place_box(p, nodes[k].spec_aabb()), ray, tn, td)
            ==> closest is Some && closest->Some_0.num * td <= tn * closest->Some_0.den
}

/// A parameter inside a covered node's placed box is inside the covering
/// root's placed box.
proof fn lemma_t_climbs(
    nodes: Seq<Node>,
    p: Placement,
    ray: Ray,
    top: int,
    k: int,
    tn: int,
    td: int,
)
    requires
        wf_shape(nodes),
        p.wf(),
        in_subtree(nodes, top, k),
        ray_in_box_at(spec_place_box(p, nodes[k].spec_aabb()), ray, tn, td),
    ensures
        ray_in_box_at(spec_place_box(p, nodes[top].spec_aabb()), ray, tn, td),
{
    lemma_subtree_box(nodes, top, k);
    assert(shape_ok(nodes, top));
    assert(shape_ok(nodes, k));
    lemma_spec_place_contains(p, nodes[top].spec_aabb(), nodes[k].spec_aabb());
    lemma_in_box_mono(
        spec_place_box(p, nodes[k].spec_aabb()),
        spec_place_box(p, nodes[top].spec_aabb()),
        ray,
        tn,
        td,
    );
}

/// Subtree membership is transitive.
pub proof fn lemma_in_subtree_trans(nodes: Seq<Node>, a: int, b: int, c: int)
    requires
        in_subtree(nodes, a, b),
        in_subtree(nodes, b, c),
    ensures
        in_subtree(nodes, a, c),
    decreases nodes.len() - a,
{
    if a != b && 0 <= a < nodes.len() && !nodes[a].spec_is_leaf() {
        let l = nodes[a].spec_left();
        let r = nodes[a].spec_right();
        if a < l < nodes.len() && a < r < nodes.len() {
            if in_subtree(nodes, l, b) {
                lemma_in_subtree_trans(nodes, l, b, c);
            } else {
                lemma_in_subtree_trans(nodes, r, b, c);
            }
        }
    }
}

/// The coarse traversal's running guarantee: every reachable leaf no
/// longer covered by the stack already has its whole entry interval at or
/// beyond `closest`.
pub open spec fn coverage(
    nodes: Seq<Node>,
    st: Seq<u32>,
    p: Placement,
    ray: Ray,
    closest: Option<Ratio>,
) -> bool {
    forall|k: int|
        0 <= k < nodes.len() && nodes[k].spec_is_leaf() && in_subtree(nodes, 0, k) && !(
        #[trigger] on_stack(nodes, st, k)) ==> leaf_done(nodes, p, ray, k, closest)
}

/// Popping a node whose box the ray misses keeps the guarantee: nothing
/// below that node can be entered at all.
proof fn lemma_coverage_step_miss(
    nodes: Seq<Node>,
    st0: Seq<u32>,
    st1: Seq<u32>,
    p: Placement,
    ray: Ray,
    top: u32,
    closest: Option<Ratio>,
)
    requires
        wf_shape(nodes),
        p.wf(),
        st0 == st1.push(top),
        (top as int) < nodes.len(),
        coverage(nodes, st0, p, ray, closest),
        !aabb_hit(spec_place_box(p, nodes[top as int].spec_aabb()), ray),
    ensures
        coverage(nodes, st1, p, ray, closest),
{
    assert forall|k: int|
        0 <= k < nodes.len() && nodes[k].spec_is_leaf() && in_subtree(nodes, 0, k) && !(
        #[trigger] on_stack(nodes, st1, k)) implies leaf_done(nodes, p, ray, k, closest) by {
        if on_stack(nodes, st0, k) {
            let j = choose|j: int| 0 <= j < st0.len() && #[trigger] in_subtree(
                nodes,
                st0[j] as int,
                k,
            );
            if j < st0.len() - 1 {
                assert(st1[j] == st0[j]);
                assert(on_stack(nodes, st1, k));
            } else {
                assert(in_subtree(nodes, top as int, k));
                assert forall|tn: int, td: int|
                    #[trigger] ray_in_box_at(
                        spec_place_box(p, nodes[k].spec_aabb()),
                        ray,
                        tn,
                        td,
                    ) implies closest is Some && closest->Some_0.num * td <= tn
                    * closest->Some_0.den by {
                    lemma_t_climbs(nodes, p, ray, top as int, k, tn, td);
                    assert(ray_in_box_at(
                        spec_place_box(p, nodes[top as int].spec_aabb()),
                        ray,
                        tn,
                        td,
                    ));
                }
            }
        }
    }
}

/// Pruning a node whose entry lies beyond `closest` keeps the guarantee:
/// everything below it is entered no earlier than that entry.
proof fn lemma_coverage_step_pruned(
    nodes: Seq<Node>,
    st0: Seq<u32>,
    st1: Seq<u32>,
    p: Placement,
    ray: Ray,
    top: u32,
    cv: Ratio,
    t: Ratio,
)
    requires
        wf_shape(nodes),
        p.wf(),
        st0 == st1.push(top),
        (top as int) < nodes.len(),
        coverage(nodes, st0, p, ray, Some(cv)),
        cv.den > 0,
        t.den > 0,
        cv.spec_lt(t),
        forall|tn: int, td: int|
            #[trigger] ray_in_box_at(spec_place_box(p, nodes[top as int].spec_aabb()), ray, tn, td)
                ==> t.num * td <= tn * t.den,
    ensures
        coverage(nodes, st1, p, ray, Some(cv)),
{
    assert forall|k: int|
        0 <= k < nodes.len() && nodes[k].spec_is_leaf() && in_subtree(nodes, 0, k) && !(
        #[trigger] on_stack(nodes, st1, k)) implies leaf_done(nodes, p, ray, k, Some(cv)) by {
        if on_stack(nodes, st0, k) {
            let j = choose|j: int| 0 <= j < st0.len() && #[trigger] in_subtree(
                nodes,
                st0[j] as int,
                k,
            );
            if j < st0.len() - 1 {
                assert(st1[j] == st0[j]);
                assert(on_stack(nodes, st1, k));
            } else {
                assert(in_subtree(nodes, top as int, k));
                assert forall|tn: int, td: int|
                    #[trigger] ray_in_box_at(
                        spec_place_box(p, nodes[k].spec_aabb()),
                        ray,
                        tn,
                        td,
                    ) implies cv.num * td <= tn * cv.den by {
                    lemma_t_climbs(nodes, p, ray, top as int, k, tn, td);
                    lemma_cross_trans(cv.num as int, cv.den as int, t.num as int, t.den as int, tn, td);
                }
            }
        }
    }
}

/// Recording a popped leaf's entry as the new `closest` keeps the
/// guarantee: the leaf itself is entered no earlier than its entry, and
/// the new `closest` is no later than the old one.
proof fn lemma_coverage_step_leaf(
    nodes: Seq<Node>,
    st0: Seq<u32>,
    st1: Seq<u32>,
    p: Placement,
    ray: Ray,
    top: u32,
    closest0: Option<Ratio>,
    t: Ratio,
)
    requires
        wf_shape(nodes),
        p.wf(),
        st0 == st1.push(top),
        (top as int) < nodes.len(),
        nodes[top as int].spec_is_leaf(),
        coverage(nodes, st0, p, ray, closest0),
        t.den > 0,
        closest0 is Some ==> closest0->Some_0.den > 0 && t.num * closest0->Some_0.den <= closest0->Some_0.num * t.den,
        forall|tn: int, td: int|
            #[trigger] ray_in_box_at(spec_place_box(p, nodes[top as int].spec_aabb()), ray, tn, td)
                ==> t.num * td <= tn * t.den,
    ensures
        coverage(nodes, st1, p, ray, Some(t)),
{
    assert forall|k: int|
        0 <= k < nodes.len() && nodes[k].spec_is_leaf() && in_subtree(nodes, 0, k) && !(
        #[trigger] on_stack(nodes, st1, k)) implies leaf_done(nodes, p, ray, k, Some(t)) by {
        if on_stack(nodes, st0, k) {
            let j = choose|j: int| 0 <= j < st0.len() && #[trigger] in_subtree(
                nodes,
                st0[j] as int,
                k,
            );
            if j < st0.len() - 1 {
                assert(st1[j] == st0[j]);
                assert(on_stack(nodes, st1, k));
            } else {
                assert(in_subtree(nodes, top as int, k));
                assert(k == top as int);
            }
        } else {
            assert(leaf_done(nodes, p, ray, k, closest0));
            assert forall|tn: int, td: int|
                #[trigger] ray_in_box_at(
                    spec_place_box(p, nodes[k].spec_aabb()),
                    ray,
                    tn,
                    td,
                ) implies t.num * td <= tn * t.den by {
                let cv = closest0->Some_0;
                lemma_cross_trans(t.num as int, t.den as int, cv.num as int, cv.den as int, tn, td);
            }
        }
    }
}

/// Expanding an internal node keeps the guarantee: everything below it is
/// now covered through its two children.
proof fn lemma_coverage_step_internal(
    nodes: Seq<Node>,
    st0: Seq<u32>,
    st1: Seq<u32>,
    p: Placement,
    ray: Ray,
    top: u32,
    closest: Option<Ratio>,
)
    requires
        wf_shape(nodes),
        p.wf(),
        st0.len() >= 1,
        st0[st0.len() - 1] == top,
        (top as int) < nodes.len(),
        !nodes[top as int].spec_is_leaf(),
        st1.len() == st0.len() + 1,
        forall|j: int| 0 <= j < st0.len() - 1 ==> #[trigger] st1[j] == st0[j],
        (st1[st1.len() - 1] as int == nodes[top as int].spec_left() && st1[st1.len() - 2] as int
            == nodes[top as int].spec_right()) || (st1[st1.len() - 1] as int == nodes[top as int].spec_right()
            && st1[st1.len() - 2] as int == nodes[top as int].spec_left()),
        coverage(nodes, st0, p, ray, closest),
    ensures
        coverage(nodes, st1, p, ray, closest),
{
    assert forall|k: int|
        0 <= k < nodes.len() && nodes[k].spec_is_leaf() && in_subtree(nodes, 0, k) && !(
        #[trigger] on_stack(nodes, st1, k)) implies leaf_done(nodes, p, ray, k, closest) by {
        if on_stack(nodes, st0, k) {
            let j = choose|j: int| 0 <= j < st0.len() && #[trigger] in_subtree(
                nodes,
                st0[j] as int,
                k,
            );
            if j < st0.len() - 1 {
                assert(st1[j] == st0[j]);
                assert(on_stack(nodes, st1, k));
            } else {
                assert(in_subtree(nodes, top as int, k));
                assert(shape_ok(nodes, top as int));
                let l = nodes[top as int].spec_left();
                let r = nodes[top as int].spec_right();
                if in_subtree(nodes, l, k) {
                    assert(st1[st1.len() - 1] as int == l || st1[st1.len() - 2] as int == l);
                    assert(on_stack(nodes, st1, k));
                } else {
                    assert(in_subtree(nodes, r, k));
                    assert(st1[st1.len() - 1] as int == r || st1[st1.len() - 2] as int == r);
                    assert(on_stack(nodes, st1, k));
                }
            }
        }
    }
}

impl BoundingVolumeHierarchy {
    /// Coarse picking: walks the tree front-to-back and returns the
    /// nearest parameter at which the ray enters any leaf's placed box —
    /// a hit distance at box precision, faces are never consulted. The
    /// answer is exact at that precision: `Some` is the minimum box-entry
    /// parameter over every leaf reachable from the root, and `None`
    /// means no reachable leaf box is crossed at all — in particular
    /// whenever the root box itself is missed.
    pub fn intersects_ray_at_fast(&self, ray: &Ray, placement: &Placement) -> (r: Option<Ratio>)
        requires
            wf_shape(self.nodes@),
            ray.wf(),
            placement.wf(),
        ensures
            !aabb_hit(spec_place_box(*placement, self.nodes@[0].spec_aabb()), *ray) ==> r is None,
            r is None ==> forall|i: int|
                0 <= i < self.nodes@.len() && self.nodes@[i].spec_is_leaf() && #[trigger] in_subtree(
                    self.nodes@,
                    0,
                    i,
                ) ==> !aabb_hit(spec_place_box(*placement, self.nodes@[i].spec_aabb()), *ray),
            r is Some ==> {
                &&& r->Some_0.wf()
                &&& r->Some_0.spec_nonneg()
                &&& aabb_hit(spec_place_box(*placement, self.nodes@[0].spec_aabb()), *ray)
                &&& exists|i: int|
                    0 <= i < self.nodes@.len() && (#[trigger] self.nodes@[i]).spec_is_leaf()
                        && ray_in_box_at(
                        spec_place_box(*placement, self.nodes@[i].spec_aabb()),
                        *ray,
                        r->Some_0.num as int,
                        r->Some_0.den as int,
                    )
                &&& forall|i: int, tn: int, td: int|
                    0 <= i < self.nodes@.len() && self.nodes@[i].spec_is_leaf() && in_subtree(
                        self.nodes@,
                        0,
                        i,
                    ) && #[trigger] ray_in_box_at(
                        spec_place_box(*placement, self.nodes@[i].spec_aabb()),
                        *ray,
                        tn,
                        td,
                    ) ==> r->Some_0.num * td <= tn * r->Some_0.den
            },
    {
        let nodes = &self.nodes;
        let ghost root_placed = spec_place_box(*placement, nodes@[0].spec_aabb());
        let mut stack: Vec<u32> = Vec::new();
        stack.push(0);
        let mut closest: Option<Ratio> = Option::None;
        proof {
            lemma_stack_weight_nonneg(nodes@, stack@);
            assert(in_subtree(nodes@, 0, stack@[0] as int));
        }
        while stack.len() != 0
            invariant
                forall|j: int| 0 <= j < stack@.len() ==> (#[trigger] stack@[j]) < nodes@.len(),
                forall|j: int| 0 <= j < stack@.len() ==> in_subtree(
                    nodes@,
                    0,
                    #[trigger] stack@[j] as int,
                ),
                closest is Some ==> {
                    &&& closest->Some_0.wf()
                    &&& closest->Some_0.spec_nonneg()
                    &&& aabb_hit(root_placed, *ray)
                    &&& exists|i: int|
                        0 <= i < nodes@.len() && (#[trigger] nodes@[i]).spec_is_leaf()
                            && ray_in_box_at(
                            spec_place_box(*placement, nodes@[i].spec_aabb()),
                            *ray,
                            closest->Some_0.num as int,
                            closest->Some_0.den as int,
                        )
                },
                coverage(nodes@, stack@, *placement, *ray, closest),
            decreases stack_weight(nodes@, stack@),
        {
            let ghost stack0 = stack@;
            let ghost closest0 = closest;
            let top = stack.pop().unwrap();
            proof {
                assert(stack0 =~= stack@.push(top));
                lemma_stack_weight_push(nodes@, stack@, top);
                lemma_stack_weight_nonneg(nodes@, stack@);
                lemma_subtree_size_pos(nodes@, top as int);
                assert(shape_ok(nodes@, top as int));
                assert(shape_ok(nodes@, 0));
                assert(stack0[stack0.len() - 1] == top);
                assert(in_subtree(nodes@, 0, top as int));
                lemma_subtree_box(nodes@, 0, top as int);
            }
            let node = &nodes[top as usize];
            let placed = placement.place_box(&node.aabb());
            proof {
                assert(placed == spec_place_box(*placement, nodes@[top as int].spec_aabb()));
            }
            let entry = ray_box_entry(&placed, ray);
            match entry {
                Option::Some(t) => {
                    let mut pruned = false;
                    if let Option::Some(cv) = &closest {
                        if cv.lt(&t) {
                            pruned = true;
                        }
                    }
                    if !pruned {
                        if node.is_leaf() {
                            proof {
                                lemma_spec_place_contains(
                                    *placement,
                                    nodes@[0].spec_aabb(),
                                    nodes@[top as int].spec_aabb(),
                                );
                                lemma_in_box_mono(
                                    placed,
                                    root_placed,
                                    *ray,
                                    t.num as int,
                                    t.den as int,
                                );
                            }
                            closest = Option::Some(t);
                            proof {
                                lemma_coverage_step_leaf(
                                    nodes@,
                                    stack0,
                                    stack@,
                                    *placement,
                                    *ray,
                                    top,
                                    closest0,
                                    t,
                                );
                            }
                        } else {
                            let (left, right) = node.children().unwrap();
                            proof {
                                assert(in_subtree(nodes@, left as int, left as int));
                                assert(in_subtree(nodes@, right as int, right as int));
                                assert(in_subtree(nodes@, top as int, left as int));
                                assert(in_subtree(nodes@, top as int, right as int));
                                lemma_in_subtree_trans(nodes@, 0, top as int, left as int);
                                lemma_in_subtree_trans(nodes@, 0, top as int, right as int);
                                lemma_subtree_box(nodes@, 0, left as int);
                                lemma_subtree_box(nodes@, 0, right as int);
                                lemma_stack_weight_push(nodes@, stack@, left);
                                lemma_stack_weight_push(nodes@, stack@.push(left), right);
                                lemma_stack_weight_push(nodes@, stack@, right);
                                lemma_stack_weight_push(nodes@, stack@.push(right), left);
                                assert(shape_ok(nodes@, left as int));
                                assert(shape_ok(nodes@, right as int));
                            }
                            let lnode = &nodes[left as usize];
                            let rnode = &nodes[right as usize];
                            let lplaced = placement.place_box(&lnode.aabb());
                            let rplaced = placement.place_box(&rnode.aabb());
                            let lt = ray_box_entry(&lplaced, ray);
                            let rt = ray_box_entry(&rplaced, ray);
                            match (lt, rt) {
                                (Option::Some(l), Option::Some(rr)) => {
                                    if l.lt(&rr) {
                                        stack.push(right);
                                        stack.push(left);
                                    } else {
                                        stack.push(left);
                                        stack.push(right);
                                    }
                                },
                                _ => {
                                    stack.push(left);
                                    stack.push(right);
                                },
                            }
                            proof {
                                lemma_coverage_step_internal(
                                    nodes@,
                                    stack0,
                                    stack@,
                                    *placement,
                                    *ray,
                                    top,
                                    closest0,
                                );
                            }
                        }
                    } else {
                        proof {
                            lemma_coverage_step_pruned(
                                nodes@,
                                stack0,
                                stack@,
                                *placement,
                                *ray,
                                top,
                                closest0->Some_0,
                                t,
                            );
                        }
                    }
                },
                Option::None => {
                    proof {
                        lemma_coverage_step_miss(
                            nodes@,
                            stack0,
                            stack@,
                            *placement,
                            *ray,
                            top,
                            closest0,
                        );
                    }
                },
            }
        }
        proof {
            assert forall|k: int|
                0 <= k < nodes@.len() && nodes@[k].spec_is_leaf() && #[trigger] in_subtree(
                    nodes@,
                    0,
                    k,
                ) implies leaf_done(nodes@, *placement, *ray, k, closest) by {
                assert(!on_stack(nodes@, stack@, k));
            }
            if closest is None {
                assert forall|i: int|
                    0 <= i < nodes@.len() && nodes@[i].spec_is_leaf() && #[trigger] in_subtree(
                        nodes@,
                        0,
                        i,
                    ) implies !aabb_hit(
                    spec_place_box(*placement, nodes@[i].spec_aabb()),
                    *ray,
                ) by {
                    if aabb_hit(spec_place_box(*placement, nodes@[i].spec_aabb()), *ray) {
                        let (tn, td) = choose|tn: int, td: int| #[trigger] ray_in_box_at(
                            spec_place_box(*placement, nodes@[i].spec_aabb()),
                            *ray,
                            tn,
                            td,
                        );
                        assert(leaf_done(nodes@, *placement, *ray, i, closest));
                        assert(false);
                    }
                }
            } else {
                assert forall|i: int, tn: int, td: int|
                    0 <= i < nodes@.len() && nodes@[i].spec_is_leaf() && in_subtree(nodes@, 0, i)
                        && #[trigger] ray_in_box_at(
                        spec_place_box(*placement, nodes@[i].spec_aabb()),
                        *ray,
                        tn,
                        td,
                    ) implies closest->Some_0.num * td <= tn * closest->Some_0.den by {
                    assert(leaf_done(nodes@, *placement, *ray, i, closest));
                }
            }
        }
        closest
    }
}

/// The outcome of testing one face exactly: the first fan-triangle hit of
/// the face's placed boundary polygon, kept only within the ray's range.
pub open spec fn spec_face_hit(mesh: EditableMesh, p: Placement, ray: Ray, f: int) -> Option<
    (int, int),
> {
    crate::tri::spec_convex_hit(
        crate::tri::spec_placed_seq(p, mesh.spec_face_positions(f)),
        ray,
    )
}

/// Ground truth over the first `k` faces: the strictly closest exact face
/// hit, an earlier face winning ties.
pub open spec fn spec_brute(mesh: EditableMesh, p: Placement, ray: Ray, k: int) -> Option<
    (u32, (int, int)),
>
    decreases k,
{
    if k <= 0 {
        None
    } else {
        let prev = spec_brute(mesh, p, ray, k - 1);
        match spec_face_hit(mesh, p, ray, k - 1) {
            Option::None => prev,
            Option::Some(t) => match prev {
                Option::None => Some((((k - 1) as u32), t)),
                Option::Some(pv) => if t.0 * pv.1.1 < pv.1.0 * t.1 {
                    Some((((k - 1) as u32), t))
                } else {
                    Some(pv)
                },
            },
        }
    }
}

/// What the ground truth returns is really the closest hit: a returned
/// pair is a face hit at exactly its parameter, every face hit is no
/// closer, and a `None` means no face is hit at all.
pub proof fn lemma_brute_minimal(mesh: EditableMesh, p: Placement, ray: Ray, k: int)
    requires
        0 <= k <= u32::MAX,
    ensures
        spec_brute(mesh, p, ray, k) matches Some(pv) ==> {
            &&& 0 <= pv.0 < k
            &&& spec_face_hit(mesh, p, ray, pv.0 as int) == Some(pv.1)
            &&& forall|f: int|
                0 <= f < k && (#[trigger] spec_face_hit(mesh, p, ray, f)) is Some ==> pv.1.0
                    * spec_face_hit(mesh, p, ray, f)->Some_0.1 <= spec_face_hit(
                    mesh,
                    p,
                    ray,
                    f,
                )->Some_0.0 * pv.1.1
        },
        spec_brute(mesh, p, ray, k) is None ==> forall|f: int| 0 <= f < k ==> (
        #[trigger] spec_face_hit(mesh, p, ray, f)) is None,
        spec_brute(mesh, p, ray, k) is Some <==> exists|f: int|
            0 <= f < k && (#[trigger] spec_face_hit(mesh, p, ray, f)) is Some,
    decreases k,
{
    if k > 0 {
        lemma_brute_minimal(mesh, p, ray, k - 1);
        if spec_face_hit(mesh, p, ray, k - 1) is Some {
            assert(exists|f: int|
                0 <= f < k && (#[trigger] spec_face_hit(mesh, p, ray, f)) is Some);
        }
        if spec_brute(mesh, p, ray, k) is Some {
            let pv = spec_brute(mesh, p, ray, k)->Some_0;
            assert(spec_face_hit(mesh, p, ray, pv.0 as int) == Some(pv.1));
            crate::tri::lemma_fan_first_pos(
                crate::tri::spec_placed_seq(p, mesh.spec_face_positions(pv.0 as int)),
                ray,
                1,
            );
            assert(pv.1.1 > 0);
            assert forall|f: int|
                0 <= f < k && (#[trigger] spec_face_hit(mesh, p, ray, f)) is Some implies pv.1.0
                    * spec_face_hit(mesh, p, ray, f)->Some_0.1 <= spec_face_hit(
                mesh,
                p,
                ray,
                f,
            )->Some_0.0 * pv.1.1 by {
                let ht = spec_face_hit(mesh, p, ray, f)->Some_0;
                crate::tri::lemma_fan_first_pos(
                    crate::tri::spec_placed_seq(p, mesh.spec_face_positions(f)),
                    ray,
                    1,
                );
                assert(ht.1 > 0);
                if f < k - 1 {
                    let prev = spec_brute(mesh, p, ray, k - 1)->Some_0;
                    crate::tri::lemma_fan_first_pos(
                        crate::tri::spec_placed_seq(p, mesh.spec_face_positions(prev.0 as int)),
                        ray,
                        1,
                    );
                    assert(prev.1.1 > 0);
                    lemma_cross_trans(pv.1.0, pv.1.1, prev.1.0, prev.1.1, ht.0, ht.1);
                }
            }
        }
    }
}

/// Tests every face of the mesh in handle order and keeps the strictly
/// closest hit: the reference the tree traversal is meant to agree with.
pub fn intersects_ray_at_brute(mesh: &EditableMesh, ray: &Ray, placement: &Placement) -> (r:
    Option<(u32, Ratio)>)
    requires
        mesh.wf(),
        ray.wf(),
        placement.wf(),
    ensures
        r is Some <==> spec_brute(*mesh, *placement, *ray, mesh.num_faces()) is Some,
        r is Some ==> {
            let pv = spec_brute(*mesh, *placement, *ray, mesh.num_faces())->Some_0;
            &&& r->Some_0.0 == pv.0
            &&& r->Some_0.1.num == pv.1.0
            &&& r->Some_0.1.den == pv.1.1
            &&& r->Some_0.1.wf()
            &&& r->Some_0.1.num > 0
            &&& r->Some_0.0 < mesh.num_faces()
        },
{
    let n = mesh.face_count();
    let mut closest: Option<(u32, Ratio)> = Option::None;
    let mut f: usize = 0;
    while f < n
        invariant
            f <= n == mesh.num_faces(),
            closest is Some <==> spec_brute(*mesh, *placement, *ray, f as int) is Some,
            closest is Some ==> {
                let pv = spec_brute(*mesh, *placement, *ray, f as int)->Some_0;
                &&& closest->Some_0.0 == pv.0
                &&& closest->Some_0.1.num == pv.1.0
                &&& closest->Some_0.1.den == pv.1.1
                &&& closest->Some_0.1.wf()
                &&& closest->Some_0.1.num > 0
                &&& closest->Some_0.0 < mesh.num_faces()
            },
        decreases n - f,
    {
        let verts = mesh.face_positions(f as u32);
        proof {
            assert forall|q: int| 0 <= q < verts@.len() implies (#[trigger] verts@[q]).bounded(
                crate::MAX_COORD as int,
            ) by {
                assert(mesh.positions@[mesh.faces@[f as int]@[q] as int].bounded(
                    crate::MAX_COORD as int,
                ));
            }
        }
        let hit = crate::tri::ray_intersects_convex_plane_at(ray, placement, &verts);
        if let Option::Some(t) = hit {
            let replace = match &closest {
                Option::None => true,
                Option::Some(c) => t.lt(&c.1),
            };
            if replace {
                closest = Option::Some((f as u32, t));
            }
        }
        f = f + 1;
    }
    closest
}

/// In a built tree, a face hit is enterable at some reachable leaf's
/// placed box at the very same parameter. Together with the coarse
/// traversal's contract this pins the two query modes' order: whenever
/// the precise mode reports a hit at `t`, the coarse mode reports a box
/// entry no farther than `t`.
pub proof fn lemma_face_hit_reaches_a_leaf(
    bvh: BoundingVolumeHierarchy,
    mesh: EditableMesh,
    p: Placement,
    ray: Ray,
    f: int,
    tn: int,
    td: int,
)
    requires
        mesh.wf(),
        p.wf(),
        bvh.built_for(mesh),
        0 <= f < mesh.num_faces(),
        spec_face_hit(mesh, p, ray, f) == Some((tn, td)),
    ensures
        exists|i: int|
            0 <= i < bvh.nodes@.len() && (#[trigger] bvh.nodes@[i]).spec_is_leaf() && in_subtree(
                bvh.nodes@,
                0,
                i,
            ) && ray_in_box_at(spec_place_box(p, bvh.nodes@[i].spec_aabb()), ray, tn, td),
{
    crate::bvh::lemma_face_in_some_leaf(mesh, bvh.nodes@, f as u32);
    let i = choose|i: int|
        0 <= i < bvh.nodes@.len() && (#[trigger] bvh.nodes@[i]).spec_is_leaf()
            && bvh.nodes@[i].spec_prims().contains(f as u32);
    assert(node_ok(mesh, bvh.nodes@, i));
    let q = choose|q: int|
        0 <= q < bvh.nodes@[i].spec_prims().len() && bvh.nodes@[i].spec_prims()[q] == f as u32;
    assert(bvh.nodes@[i].spec_aabb().contains_box(mesh.spec_face_box(f)));
    lemma_face_hit_in_leaf_box(mesh, p, ray, f, bvh.nodes@[i].spec_aabb(), tn, td);
    assert(in_subtree(bvh.nodes@, 0, i));
}

/// The two query modes in order: whenever a face is hit at `tn / td` —
/// in particular whenever the precise mode reports a hit there — a
/// coarse result with the coarse traversal's contract is `Some` and no
/// farther than `tn / td`. The hypotheses on `rf` are exactly what
/// `intersects_ray_at_fast` ensures of its result.
pub proof fn lemma_fast_no_farther(
    bvh: BoundingVolumeHierarchy,
    mesh: EditableMesh,
    p: Placement,
    ray: Ray,
    f: int,
    tn: int,
    td: int,
    rf: Option<Ratio>,
)
    requires
        mesh.wf(),
        p.wf(),
        bvh.built_for(mesh),
        0 <= f < mesh.num_faces(),
        spec_face_hit(mesh, p, ray, f) == Some((tn, td)),
        rf is None ==> forall|i: int|
            0 <= i < bvh.nodes@.len() && bvh.nodes@[i].spec_is_leaf() && #[trigger] in_subtree(
                bvh.nodes@,
                0,
                i,
            ) ==> !aabb_hit(spec_place_box(p, bvh.nodes@[i].spec_aabb()), ray),
        rf is Some ==> forall|i: int, tn2: int, td2: int|
            0 <= i < bvh.nodes@.len() && bvh.nodes@[i].spec_is_leaf() && in_subtree(
                bvh.nodes@,
                0,
                i,
            ) && #[trigger] ray_in_box_at(
                spec_place_box(p, bvh.nodes@[i].spec_aabb()),
                ray,
                tn2,
                td2,
            ) ==> rf->Some_0.num * td2 <= tn2 * rf->Some_0.den,
    ensures
        rf is Some,
        rf->Some_0.num * td <= tn * rf->Some_0.den,
{
    lemma_face_hit_reaches_a_leaf(bvh, mesh, p, ray, f, tn, td);
    let i = choose|i: int|
        0 <= i < bvh.nodes@.len() && (#[trigger] bvh.nodes@[i]).spec_is_leaf() && in_subtree(
            bvh.nodes@,
            0,
            i,
        ) && ray_in_box_at(spec_place_box(p, bvh.nodes@[i].spec_aabb()), ray, tn, td);
    if rf is None {
        assert(aabb_hit(spec_place_box(p, bvh.nodes@[i].spec_aabb()), ray));
        assert(false);
    }
}

/// A face hit always carries a positive parameter over a positive
/// denominator.
pub proof fn lemma_face_hit_pos(mesh: EditableMesh, p: Placement, ray: Ray, f: int)
    ensures
        spec_face_hit(mesh, p, ray, f) matches Some(t) ==> t.0 > 0 && t.1 > 0,
{
    crate::tri::lemma_fan_first_pos(
        crate::tri::spec_placed_seq(p, mesh.spec_face_positions(f)),
        ray,
        1,
    );
}

/// Face `f` is accounted for: if it has a hit, `closest` is a hit no
/// farther than it.
pub open spec fn face_guard(
    mesh: EditableMesh,
    p: Placement,
    ray: Ray,
    f: u32,
    closest: Option<(u32, Ratio)>,
) -> bool {
    spec_face_hit(mesh, p, ray, f as int) matches Some(t) ==> closest is Some
        && closest->Some_0.1.num * t.1 <= t.0 * closest->Some_0.1.den
}

/// Every face of leaf `k` is accounted for.
pub open spec fn leaf_faces_done(
    mesh: EditableMesh,
    nodes: Seq<Node>,
    p: Placement,
    ray: Ray,
    k: int,
    closest: Option<(u32, Ratio)>,
) -> bool {
    forall|q: int| 0 <= q < nodes[k].spec_prims().len() ==> face_guard(
        mesh,
        p,
        ray,
        #[trigger] nodes[k].spec_prims()[q],
        closest,
    )
}

/// The precise traversal's running guarantee: every reachable leaf no
/// longer covered by the stack has all its faces accounted for.
pub open spec fn faces_coverage(
    mesh: EditableMesh,
    nodes: Seq<Node>,
    st: Seq<u32>,
    p: Placement,
    ray: Ray,
    closest: Option<(u32, Ratio)>,
) -> bool {
    forall|k: int|
        0 <= k < nodes.len() && nodes[k].spec_is_leaf() && in_subtree(nodes, 0, k) && !(
        #[trigger] on_stack(nodes, st, k)) ==> leaf_faces_done(mesh, nodes, p, ray, k, closest)
}

/// A face guard survives replacing `closest` by a hit no farther out.
proof fn lemma_face_guard_mono(
    mesh: EditableMesh,
    p: Placement,
    ray: Ray,
    f: u32,
    c_old: Option<(u32, Ratio)>,
    c_new: (u32, Ratio),
)
    requires
        face_guard(mesh, p, ray, f, c_old),
        c_new.1.den > 0,
        c_old matches Some(cv) ==> cv.1.den > 0 && c_new.1.num * cv.1.den <= cv.1.num
            * c_new.1.den,
    ensures
        face_guard(mesh, p, ray, f, Some(c_new)),
{
    if spec_face_hit(mesh, p, ray, f as int) is Some {
        let t = spec_face_hit(mesh, p, ray, f as int)->Some_0;
        lemma_face_hit_pos(mesh, p, ray, f as int);
        let cv = c_old->Some_0;
        lemma_cross_trans(c_new.1.num as int, c_new.1.den as int, cv.1.num as int, cv.1.den as int, t.0, t.1);
    }
}

/// The whole guarantee survives such a replacement.
proof fn lemma_fcov_mono(
    mesh: EditableMesh,
    nodes: Seq<Node>,
    st: Seq<u32>,
    p: Placement,
    ray: Ray,
    c_old: Option<(u32, Ratio)>,
    c_new: (u32, Ratio),
)
    requires
        faces_coverage(mesh, nodes, st, p, ray, c_old),
        c_new.1.den > 0,
        c_old matches Some(cv) ==> cv.1.den > 0 && c_new.1.num * cv.1.den <= cv.1.num
            * c_new.1.den,
    ensures
        faces_coverage(mesh, nodes, st, p, ray, Some(c_new)),
{
    assert forall|k: int|
        0 <= k < nodes.len() && nodes[k].spec_is_leaf() && in_subtree(nodes, 0, k) && !(
        #[trigger] on_stack(nodes, st, k)) implies leaf_faces_done(
        mesh,
        nodes,
        p,
        ray,
        k,
        Some(c_new),
    ) by {
        assert forall|q: int| 0 <= q < nodes[k].spec_prims().len() implies face_guard(
            mesh,
            p,
            ray,
            #[trigger] nodes[k].spec_prims()[q],
            Some(c_new),
        ) by {
            lemma_face_guard_mono(mesh, p, ray, nodes[k].spec_prims()[q], c_old, c_new);
        }
    }
}

/// A hit on a face of a leaf below `top` puts the ray inside `top`'s
/// placed box at the hit parameter.
proof fn lemma_face_hit_climbs(
    mesh: EditableMesh,
    nodes: Seq<Node>,
    p: Placement,
    ray: Ray,
    top: u32,
    k: int,
    q: int,
)
    requires
        mesh.wf(),
        p.wf(),
        tree_ok(mesh, nodes),
        wf_shape(nodes),
        (top as int) < nodes.len(),
        in_subtree(nodes, top as int, k),
        0 <= k < nodes.len(),
        nodes[k].spec_is_leaf(),
        0 <= q < nodes[k].spec_prims().len(),
        spec_face_hit(mesh, p, ray, nodes[k].spec_prims()[q] as int) is Some,
    ensures
        ({
            let t = spec_face_hit(mesh, p, ray, nodes[k].spec_prims()[q] as int)->Some_0;
            ray_in_box_at(spec_place_box(p, nodes[top as int].spec_aabb()), ray, t.0, t.1)
        }),
{
    let f = nodes[k].spec_prims()[q];
    let t = spec_face_hit(mesh, p, ray, f as int)->Some_0;
    assert(node_ok(mesh, nodes, k));
    lemma_face_hit_in_leaf_box(mesh, p, ray, f as int, nodes[k].spec_aabb(), t.0, t.1);
    lemma_t_climbs(nodes, p, ray, top as int, k, t.0, t.1);
}

/// Popping a node whose box the ray misses keeps the guarantee: no face
/// below it can be hit at all.
proof fn lemma_fcov_step_miss(
    mesh: EditableMesh,
    nodes: Seq<Node>,
    st0: Seq<u32>,
    st1: Seq<u32>,
    p: Placement,
    ray: Ray,
    top: u32,
    closest: Option<(u32, Ratio)>,
)
    requires
        mesh.wf(),
        p.wf(),
        tree_ok(mesh, nodes),
        wf_shape(nodes),
        st0 == st1.push(top),
        (top as int) < nodes.len(),
        faces_coverage(mesh, nodes, st0, p, ray, closest),
        !aabb_hit(spec_place_box(p, nodes[top as int].spec_aabb()), ray),
    ensures
        faces_coverage(mesh, nodes, st1, p, ray, closest),
{
    assert forall|k: int|
        0 <= k < nodes.len() && nodes[k].spec_is_leaf() && in_subtree(nodes, 0, k) && !(
        #[trigger] on_stack(nodes, st1, k)) implies leaf_faces_done(mesh, nodes, p, ray, k, closest) by {
        if on_stack(nodes, st0, k) {
            let j = choose|j: int| 0 <= j < st0.len() && #[trigger] in_subtree(
                nodes,
                st0[j] as int,
                k,
            );
            if j < st0.len() - 1 {
                assert(st1[j] == st0[j]);
                assert(on_stack(nodes, st1, k));
            } else {
                assert(in_subtree(nodes, top as int, k));
                assert forall|q: int| 0 <= q < nodes[k].spec_prims().len() implies face_guard(
                    mesh,
                    p,
                    ray,
                    #[trigger] nodes[k].spec_prims()[q],
                    closest,
                ) by {
                    if spec_face_hit(mesh, p, ray, nodes[k].spec_prims()[q] as int) is Some {
                        lemma_face_hit_climbs(mesh, nodes, p, ray, top, k, q);
                        let t = spec_face_hit(
                            mesh,
                            p,
                            ray,
                            nodes[k].spec_prims()[q] as int,
                        )->Some_0;
                        assert(ray_in_box_at(
                            spec_place_box(p, nodes[top as int].spec_aabb()),
                            ray,
                            t.0,
                            t.1,
                        ));
                    }
                }
            }
        }
    }
}

/// Pruning a node whose entry lies beyond `closest` keeps the guarantee:
/// every face below it is hit no earlier than that entry.
proof fn lemma_fcov_step_pruned(
    mesh: EditableMesh,
    nodes: Seq<Node>,
    st0: Seq<u32>,
    st1: Seq<u32>,
    p: Placement,
    ray: Ray,
    top: u32,
    cv: (u32, Ratio),
    t: Ratio,
)
    requires
        mesh.wf(),
        p.wf(),
        tree_ok(mesh, nodes),
        wf_shape(nodes),
        st0 == st1.push(top),
        (top as int) < nodes.len(),
        faces_coverage(mesh, nodes, st0, p, ray, Some(cv)),
        cv.1.den > 0,
        t.den > 0,
        cv.1.spec_lt(t),
        forall|tn: int, td: int|
            #[trigger] ray_in_box_at(spec_place_box(p, nodes[top as int].spec_aabb()), ray, tn, td)
                ==> t.num * td <= tn * t.den,
    ensures
        faces_coverage(mesh, nodes, st1, p, ray, Some(cv)),
{
    assert forall|k: int|
        0 <= k < nodes.len() && nodes[k].spec_is_leaf() && in_subtree(nodes, 0, k) && !(
        #[trigger] on_stack(nodes, st1, k)) implies leaf_faces_done(
        mesh,
        nodes,
        p,
        ray,
        k,
        Some(cv),
    ) by {
        if on_stack(nodes, st0, k) {
            let j = choose|j: int| 0 <= j < st0.len() && #[trigger] in_subtree(
                nodes,
                st0[j] as int,
                k,
            );
            if j < st0.len() - 1 {
                assert(st1[j] == st0[j]);
                assert(on_stack(nodes, st1, k));
            } else {
                assert(in_subtree(nodes, top as int, k));
                assert forall|q: int| 0 <= q < nodes[k].spec_prims().len() implies face_guard(
                    mesh,
                    p,
                    ray,
                    #[trigger] nodes[k].spec_prims()[q],
                    Some(cv),
                ) by {
                    if spec_face_hit(mesh, p, ray, nodes[k].spec_prims()[q] as int) is Some {
                        lemma_face_hit_climbs(mesh, nodes, p, ray, top, k, q);
                        let ht = spec_face_hit(
                            mesh,
                            p,
                            ray,
                            nodes[k].spec_prims()[q] as int,
                        )->Some_0;
                        lemma_cross_trans(
                            cv.1.num as int,
                            cv.1.den as int,
                            t.num as int,
                            t.den as int,
                            ht.0,
                            ht.1,
                        );
                    }
                }
            }
        }
    }
}

/// Expanding an internal node keeps the guarantee: everything below it is
/// now covered through its two children.
proof fn lemma_fcov_step_internal(
    mesh: EditableMesh,
    nodes: Seq<Node>,
    st0: Seq<u32>,
    st1: Seq<u32>,
    p: Placement,
    ray: Ray,
    top: u32,
    closest: Option<(u32, Ratio)>,
)
    requires
        wf_shape(nodes),
        st0.len() >= 1,
        st0[st0.len() - 1] == top,
        (top as int) < nodes.len(),
        !nodes[top as int].spec_is_leaf(),
        st1.len() == st0.len() + 1,
        forall|j: int| 0 <= j < st0.len() - 1 ==> #[trigger] st1[j] == st0[j],
        (st1[st1.len() - 1] as int == nodes[top as int].spec_left() && st1[st1.len() - 2] as int
            == nodes[top as int].spec_right()) || (st1[st1.len() - 1] as int == nodes[top as int].spec_right()
            && st1[st1.len() - 2] as int == nodes[top as int].spec_left()),
        faces_coverage(mesh, nodes, st0, p, ray, closest),
    ensures
        faces_coverage(mesh, nodes, st1, p, ray, closest),
{
    assert forall|k: int|
        0 <= k < nodes.len() && nodes[k].spec_is_leaf() && in_subtree(nodes, 0, k) && !(
        #[trigger] on_stack(nodes, st1, k)) implies leaf_faces_done(mesh, nodes, p, ray, k, closest) by {
        if on_stack(nodes, st0, k) {
            let j = choose|j: int| 0 <= j < st0.len() && #[trigger] in_subtree(
                nodes,
                st0[j] as int,
                k,
            );
            if j < st0.len() - 1 {
                assert(st1[j] == st0[j]);
                assert(on_stack(nodes, st1, k));
            } else {
                assert(in_subtree(nodes, top as int, k));
                assert(shape_ok(nodes, top as int));
                let l = nodes[top as int].spec_left();
                let r = nodes[top as int].spec_right();
                if in_subtree(nodes, l, k) {
                    assert(st1[st1.len() - 1] as int == l || st1[st1.len() - 2] as int == l);
                    assert(on_stack(nodes, st1, k));
                } else {
                    assert(in_subtree(nodes, r, k));
                    assert(st1[st1.len() - 1] as int == r || st1[st1.len() - 2] as int == r);
                    assert(on_stack(nodes, st1, k));
                }
            }
        }
    }
}

impl BoundingVolumeHierarchy {
    /// Exact picking: the same front-to-back traversal as the coarse
    /// mode, but a reached leaf has each of its faces tested exactly, and
    /// the closest face hit seen so far is kept with its owning face
    /// handle. The answer is the ground truth: a returned pair is a
    /// genuine hit of that face's placed polygon at exactly the returned
    /// parameter, no face of the mesh is hit any closer, and `None` comes
    /// back exactly when no face is hit within range — so the result
    /// agrees with testing every face, up to the choice among
    /// equidistant faces.
    pub fn intersects_ray_at(
        &self,
        ray: &Ray,
        placement: &Placement,
        mesh: &EditableMesh,
    ) -> (r: Option<(u32, Ratio)>)
        requires
            mesh.wf(),
            self.built_for(*mesh),
            ray.wf(),
            placement.wf(),
        ensures
            !aabb_hit(spec_place_box(*placement, self.nodes@[0].spec_aabb()), *ray) ==> r is None,
            r is None <==> spec_brute(*mesh, *placement, *ray, mesh.num_faces()) is None,
            r is Some ==> {
                &&& r->Some_0.0 < mesh.num_faces()
                &&& r->Some_0.1.wf()
                &&& r->Some_0.1.num > 0
                &&& spec_face_hit(*mesh, *placement, *ray, r->Some_0.0 as int) == Some(
                    (r->Some_0.1.num as int, r->Some_0.1.den as int),
                )
                &&& r->Some_0.1.spec_lt_int(ray.max as int)
                &&& aabb_hit(spec_place_box(*placement, self.nodes@[0].spec_aabb()), *ray)
                &&& forall|f: int|
                    0 <= f < mesh.num_faces() && (#[trigger] spec_face_hit(
                        *mesh,
                        *placement,
                        *ray,
                        f,
                    )) is Some ==> r->Some_0.1.num * spec_face_hit(*mesh, *placement, *ray, f)->Some_0.1
                        <= spec_face_hit(*mesh, *placement, *ray, f)->Some_0.0 * r->Some_0.1.den
                &&& r->Some_0.1.num * spec_brute(*mesh, *placement, *ray, mesh.num_faces())->Some_0.1.1
                    == spec_brute(*mesh, *placement, *ray, mesh.num_faces())->Some_0.1.0
                    * r->Some_0.1.den
            },
    {
        let nodes = &self.nodes;
        let ghost root_placed = spec_place_box(*placement, nodes@[0].spec_aabb());
        proof {
            lemma_tree_ok_shape(*mesh, nodes@);
        }
        let mut stack: Vec<u32> = Vec::new();
        stack.push(0);
        let mut closest: Option<(u32, Ratio)> = Option::None;
        proof {
            assert(in_subtree(nodes@, 0, stack@[0] as int));
        }
        while stack.len() != 0
            invariant
                mesh.wf(),
                tree_ok(*mesh, nodes@),
                wf_shape(nodes@),
                forall|j: int| 0 <= j < stack@.len() ==> (#[trigger] stack@[j]) < nodes@.len(),
                forall|j: int| 0 <= j < stack@.len() ==> in_subtree(
                    nodes@,
                    0,
                    #[trigger] stack@[j] as int,
                ),
                closest is Some ==> {
                    &&& closest->Some_0.0 < mesh.num_faces()
                    &&& closest->Some_0.1.wf()
                    &&& closest->Some_0.1.num > 0
                    &&& spec_face_hit(*mesh, *placement, *ray, closest->Some_0.0 as int) == Some(
                        (closest->Some_0.1.num as int, closest->Some_0.1.den as int),
                    )
                    &&& closest->Some_0.1.spec_lt_int(ray.max as int)
                    &&& aabb_hit(root_placed, *ray)
                },
                faces_coverage(*mesh, nodes@, stack@, *placement, *ray, closest),
            decreases stack_weight(nodes@, stack@),
        {
            let ghost stack0 = stack@;
            let ghost closest0 = closest;
            let top = stack.pop().unwrap();
            proof {
                assert(stack0 =~= stack@.push(top));
                lemma_stack_weight_push(nodes@, stack@, top);
                lemma_stack_weight_nonneg(nodes@, stack@);
                lemma_subtree_size_pos(nodes@, top as int);
                assert(shape_ok(nodes@, top as int));
                assert(node_ok(*mesh, nodes@, top as int));
                assert(shape_ok(nodes@, 0));
                assert(stack0[stack0.len() - 1] == top);
                assert(in_subtree(nodes@, 0, top as int));
                lemma_subtree_box(nodes@, 0, top as int);
            }
            let node = &nodes[top as usize];
            let placed = placement.place_box(&node.aabb());
            proof {
                assert(placed == spec_place_box(*placement, nodes@[top as int].spec_aabb()));
            }
            match ray_box_entry(&placed, ray) {
                Option::Some(t) => {
                    let mut pruned = false;
                    if let Option::Some(c) = &closest {
                        if c.1.lt(&t) {
                            pruned = true;
                        }
                    }
                    if !pruned {
                        proof {
                            lemma_spec_place_contains(
                                *placement,
                                nodes@[0].spec_aabb(),
                                nodes@[top as int].spec_aabb(),
                            );
                            lemma_in_box_mono(
                                placed,
                                root_placed,
                                *ray,
                                t.num as int,
                                t.den as int,
                            );
                        }
                        match node.primitives() {
                            Option::Some(plist) => {
                                let m = plist.len();
                                let mut k: usize = 0;
                                while k < m
                                    invariant
                                        mesh.wf(),
                                        ray.wf(),
                                        placement.wf(),
                                        tree_ok(*mesh, nodes@),
                                        wf_shape(nodes@),
                                        k <= m == plist@.len(),
                                        plist@ == nodes@[top as int].spec_prims(),
                                        node_ok(*mesh, nodes@, top as int),
                                        nodes@[top as int].spec_is_leaf(),
                                        closest is Some ==> {
                                            &&& closest->Some_0.0 < mesh.num_faces()
                                            &&& closest->Some_0.1.wf()
                                            &&& closest->Some_0.1.num > 0
                                            &&& spec_face_hit(
                                                *mesh,
                                                *placement,
                                                *ray,
                                                closest->Some_0.0 as int,
                                            ) == Some(
                                                (
                                                    closest->Some_0.1.num as int,
                                                    closest->Some_0.1.den as int,
                                                ),
                                            )
                                            &&& closest->Some_0.1.spec_lt_int(ray.max as int)
                                            &&& aabb_hit(root_placed, *ray)
                                        },
                                        faces_coverage(
                                            *mesh,
                                            nodes@,
                                            stack0,
                                            *placement,
                                            *ray,
                                            closest,
                                        ),
                                        forall|q: int| 0 <= q < k ==> face_guard(
                                            *mesh,
                                            *placement,
                                            *ray,
                                            #[trigger] plist@[q],
                                            closest,
                                        ),
                                    decreases m - k,
                                {
                                    let ghost closest_in = closest;
                                    let fh = plist[k];
                                    let verts = mesh.face_positions(fh);
                                    proof {
                                        assert forall|q: int| 0 <= q < verts@.len() implies (
                                        #[trigger] verts@[q]).bounded(crate::MAX_COORD as int) by {
                                            assert(mesh.positions@[mesh.faces@[fh as int]@[q] as int].bounded(
                                                crate::MAX_COORD as int,
                                            ));
                                        }
                                    }
                                    let hit = crate::tri::ray_intersects_convex_plane_at(
                                        ray,
                                        placement,
                                        &verts,
                                    );
                                    let mut replaced = false;
                                    if let Option::Some(ft) = hit {
                                        let replace = match &closest {
                                            Option::None => true,
                                            Option::Some(c) => ft.lt(&c.1),
                                        };
                                        if replace {
                                            closest = Option::Some((fh, ft));
                                            replaced = true;
                                            proof {
                                                lemma_fcov_mono(
                                                    *mesh,
                                                    nodes@,
                                                    stack0,
                                                    *placement,
                                                    *ray,
                                                    closest_in,
                                                    (fh, ft),
                                                );
                                                assert forall|q: int| 0 <= q < k implies face_guard(
                                                    *mesh,
                                                    *placement,
                                                    *ray,
                                                    #[trigger] plist@[q],
                                                    closest,
                                                ) by {
                                                    lemma_face_guard_mono(
                                                        *mesh,
                                                        *placement,
                                                        *ray,
                                                        plist@[q],
                                                        closest_in,
                                                        (fh, ft),
                                                    );
                                                }
                                            }
                                        }
                                    }
                                    proof {
                                        assert(face_guard(
                                            *mesh,
                                            *placement,
                                            *ray,
                                            plist@[k as int],
                                            closest,
                                        ));
                                    }
                                    k = k + 1;
                                }
                                proof {
                                    assert forall|kk: int|
                                        0 <= kk < nodes@.len() && nodes@[kk].spec_is_leaf()
                                            && in_subtree(nodes@, 0, kk) && !(#[trigger] on_stack(
                                            nodes@,
                                            stack@,
                                            kk,
                                        )) implies leaf_faces_done(
                                        *mesh,
                                        nodes@,
                                        *placement,
                                        *ray,
                                        kk,
                                        closest,
                                    ) by {
                                        if on_stack(nodes@, stack0, kk) {
                                            let j = choose|j: int|
                                                0 <= j < stack0.len() && #[trigger] in_subtree(
                                                    nodes@,
                                                    stack0[j] as int,
                                                    kk,
                                                );
                                            if j < stack0.len() - 1 {
                                                assert(stack@[j] == stack0[j]);
                                                assert(on_stack(nodes@, stack@, kk));
                                            } else {
                                                assert(in_subtree(nodes@, top as int, kk));
                                                assert(kk == top as int);
                                            }
                                        }
                                    }
                                }
                            },
                            Option::None => {
                                let (left, right) = node.children().unwrap();
                                proof {
                                    assert(in_subtree(nodes@, left as int, left as int));
                                    assert(in_subtree(nodes@, right as int, right as int));
                                    assert(in_subtree(nodes@, top as int, left as int));
                                    assert(in_subtree(nodes@, top as int, right as int));
                                    lemma_in_subtree_trans(nodes@, 0, top as int, left as int);
                                    lemma_in_subtree_trans(nodes@, 0, top as int, right as int);
                                    lemma_stack_weight_push(nodes@, stack@, left);
                                    lemma_stack_weight_push(nodes@, stack@.push(left), right);
                                    lemma_stack_weight_push(nodes@, stack@, right);
                                    lemma_stack_weight_push(nodes@, stack@.push(right), left);
                                    assert(shape_ok(nodes@, left as int));
                                    assert(shape_ok(nodes@, right as int));
                                }
                                let lnode = &nodes[left as usize];
                                let rnode = &nodes[right as usize];
                                let lplaced = placement.place_box(&lnode.aabb());
                                let rplaced = placement.place_box(&rnode.aabb());
                                let lt = ray_box_entry(&lplaced, ray);
                                let rt = ray_box_entry(&rplaced, ray);
                                match (lt, rt) {
                                    (Option::Some(l), Option::Some(rr)) => {
                                        if l.lt(&rr) {
                                            stack.push(right);
                                            stack.push(left);
                                        } else {
                                            stack.push(left);
                                            stack.push(right);
                                        }
                                    },
                                    _ => {
                                        stack.push(left);
                                        stack.push(right);
                                    },
                                }
                                proof {
                                    lemma_fcov_step_internal(
                                        *mesh,
                                        nodes@,
                                        stack0,
                                        stack@,
                                        *placement,
                                        *ray,
                                        top,
                                        closest0,
                                    );
                                }
                            },
                        }
                    } else {
                        proof {
                            lemma_fcov_step_pruned(
                                *mesh,
                                nodes@,
                                stack0,
                                stack@,
                                *placement,
                                *ray,
                                top,
                                closest0->Some_0,
                                t,
                            );
                        }
                    }
                },
                Option::None => {
                    proof {
                        lemma_fcov_step_miss(
                            *mesh,
                            nodes@,
                            stack0,
                            stack@,
                            *placement,
                            *ray,
                            top,
                            closest0,
                        );
                    }
                },
            }
        }
        proof {
            let n = mesh.num_faces();
            assert forall|kk: int|
                0 <= kk < nodes@.len() && nodes@[kk].spec_is_leaf() && #[trigger] in_subtree(
                    nodes@,
                    0,
                    kk,
                ) implies leaf_faces_done(*mesh, nodes@, *placement, *ray, kk, closest) by {
                assert(!on_stack(nodes@, stack@, kk));
            }
            assert forall|f: int|
                0 <= f < n && (#[trigger] spec_face_hit(*mesh, *placement, *ray, f)) is Some
                implies face_guard(*mesh, *placement, *ray, f as u32, closest) by {
                crate::bvh::lemma_face_in_some_leaf(*mesh, nodes@, f as u32);
                let i = choose|i: int|
                    0 <= i < nodes@.len() && (#[trigger] nodes@[i]).spec_is_leaf()
                        && nodes@[i].spec_prims().contains(f as u32);
                assert(in_subtree(nodes@, 0, i));
                assert(leaf_faces_done(*mesh, nodes@, *placement, *ray, i, closest));
                let q = choose|q: int|
                    0 <= q < nodes@[i].spec_prims().len() && nodes@[i].spec_prims()[q] == f as u32;
                assert(face_guard(*mesh, *placement, *ray, nodes@[i].spec_prims()[q], closest));
            }
            lemma_brute_minimal(*mesh, *placement, *ray, n);
            if closest is None {
                assert forall|f: int| 0 <= f < n implies !((#[trigger] spec_face_hit(
                    *mesh,
                    *placement,
                    *ray,
                    f,
                )) is Some) by {
                    if spec_face_hit(*mesh, *placement, *ray, f) is Some {
                        assert(face_guard(*mesh, *placement, *ray, f as u32, closest));
                    }
                }
                assert(spec_brute(*mesh, *placement, *ray, n) is None);
            } else {
                let c = closest->Some_0;
                assert(spec_face_hit(*mesh, *placement, *ray, c.0 as int) is Some);
                assert(spec_brute(*mesh, *placement, *ray, n) is Some);
                let pv = spec_brute(*mesh, *placement, *ray, n)->Some_0;
                assert(face_guard(*mesh, *placement, *ray, pv.0, closest));
                assert(c.1.num * pv.1.1 <= pv.1.0 * c.1.den);
                assert(pv.1.0 * c.1.den <= c.1.num * pv.1.1);
            }
        }
        closest
    }
}

} // verus!
