//! The geometric fact that justifies pruning: a triangle hit happens
//! inside any box that holds the triangle's vertices, so a ray that
//! misses (or enters late into) a node's box cannot have an earlier hit
//! on any face below that node.
//!
//! The heart is Cramer's rule for the ray–triangle system, assembled from
//! the vector triple-product identity `a x (b x c) = b (a.c) - c (a.b)`,
//! proved componentwise; the hit point is then a convex combination of
//! the vertices with barycentric weights, which pins it inside the box.

use vstd::prelude::*;
use crate::vec3::V3;
use crate::vec3::Vec3i;
use crate::aabb::Aabb;
use crate::tri::Ray;
use crate::tri::Triangle3d;

verus! {

proof fn lemma_mul_sub(a: int, p: int, q: int) by (nonlinear_arith)
    ensures
        a * (p - q) == a * p - a * q,
{
}

proof fn lemma_mul_add3(a: int, p: int, q: int, r: int) by (nonlinear_arith)
    ensures
        a * (p + q + r) == a * p + a * q + a * r,
{
}

proof fn lemma_mul_rot(a: int, b: int, c: int) by (nonlinear_arith)
    ensures
        a * (b * c) == b * (a * c),
        a * (b * c) == a * (c * b),
{
}

proof fn lemma_mul_comm(a: int, b: int) by (nonlinear_arith)
    ensures
        a * b == b * a,
{
}

proof fn lemma_mul_neg(a: int, b: int) by (nonlinear_arith)
    ensures
        (-a) * b == -(a * b),
{
}

proof fn lemma_sub2_mul(a: int, b: int, c: int, x: int) by (nonlinear_arith)
    ensures
        (a - b - c) * x == a * x - b * x - c * x,
{
}

pub proof fn lemma_dot_comm(a: V3, b: V3)
    ensures
        a.dot(b) == b.dot(a),
{
    lemma_mul_comm(a.x, b.x);
    lemma_mul_comm(a.y, b.y);
    lemma_mul_comm(a.z, b.z);
}

/// One component of the triple-product identity
/// `a x (b x c) = b (a.c) - c (a.b)`; the other components are the same
/// identity with all coordinates rotated.
proof fn lemma_bac_cab_comp(
    ax: int, ay: int, az: int,
    bx: int, by: int, bz: int,
    cx: int, cy: int, cz: int,
)
    ensures
        ay * (bx * cy - by * cx) - az * (bz * cx - bx * cz) == bx * (ax * cx + ay * cy + az * cz)
            - cx * (ax * bx + ay * by + az * bz),
{
    lemma_mul_sub(ay, bx * cy, by * cx);
    lemma_mul_sub(az, bz * cx, bx * cz);
    lemma_mul_add3(bx, ax * cx, ay * cy, az * cz);
    lemma_mul_add3(cx, ax * bx, ay * by, az * bz);
    lemma_mul_rot(bx, ax, cx);
    lemma_mul_rot(bx, ay, cy);
    lemma_mul_rot(bx, az, cz);
    lemma_mul_rot(cx, ax, bx);
    lemma_mul_rot(cx, ay, by);
    lemma_mul_rot(cx, az, bz);
    lemma_mul_rot(ax, cx, bx);
    lemma_mul_rot(ay, cx, by);
    lemma_mul_rot(az, cx, bz);
}

/// Cramer's rule for the ray–triangle system: with `h = d x e2` and
/// `q = s x e1`, the determinant `e1.h` times the origin offset `s`
/// equals the cofactor combination of the edges and the direction,
/// componentwise.
pub proof fn lemma_triangle_solution(e1: V3, e2: V3, d: V3, s: V3)
    ensures
        ({
            let h = d.cross(e2);
            let q = s.cross(e1);
            &&& e1.dot(h) * s.x == s.dot(h) * e1.x + d.dot(q) * e2.x - e2.dot(q) * d.x
            &&& e1.dot(h) * s.y == s.dot(h) * e1.y + d.dot(q) * e2.y - e2.dot(q) * d.y
            &&& e1.dot(h) * s.z == s.dot(h) * e1.z + d.dot(q) * e2.z - e2.dot(q) * d.z
        }),
{
    let h = d.cross(e2);
    let q = s.cross(e1);
    lemma_bac_cab_comp(h.x, h.y, h.z, s.x, s.y, s.z, e1.x, e1.y, e1.z);
    lemma_bac_cab_comp(q.x, q.y, q.z, d.x, d.y, d.z, e2.x, e2.y, e2.z);
    lemma_mul_comm(h.y, q.z);
    lemma_mul_comm(h.z, q.y);
    lemma_bac_cab_comp(h.y, h.z, h.x, s.y, s.z, s.x, e1.y, e1.z, e1.x);
    lemma_bac_cab_comp(q.y, q.z, q.x, d.y, d.z, d.x, e2.y, e2.z, e2.x);
    lemma_mul_comm(h.z, q.x);
    lemma_mul_comm(h.x, q.z);
    lemma_bac_cab_comp(h.z, h.x, h.y, s.z, s.x, s.y, e1.z, e1.x, e1.y);
    lemma_bac_cab_comp(q.z, q.x, q.y, d.z, d.x, d.y, e2.z, e2.x, e2.y);
    lemma_mul_comm(h.x, q.y);
    lemma_mul_comm(h.y, q.x);
    lemma_dot_comm(h, e1);
    lemma_dot_comm(h, s);
    lemma_dot_comm(q, d);
    lemma_dot_comm(q, e2);
    lemma_mul_comm(e1.dot(h), s.x);
    lemma_mul_comm(e1.dot(h), s.y);
    lemma_mul_comm(e1.dot(h), s.z);
    lemma_mul_comm(s.dot(h), e1.x);
    lemma_mul_comm(s.dot(h), e1.y);
    lemma_mul_comm(s.dot(h), e1.z);
    lemma_mul_comm(d.dot(q), e2.x);
    lemma_mul_comm(d.dot(q), e2.y);
    lemma_mul_comm(d.dot(q), e2.z);
    lemma_mul_comm(e2.dot(q), d.x);
    lemma_mul_comm(e2.dot(q), d.y);
    lemma_mul_comm(e2.dot(q), d.z);
}

/// Three non-negative weights keep a weighted sum of box-bounded values
/// inside the box, scaled by the weight total.
proof fn lemma_convex3(
    w0: int, w1: int, w2: int,
    p0: int, p1: int, p2: int,
    mn: int, mx: int,
) by (nonlinear_arith)
    requires
        w0 >= 0,
        w1 >= 0,
        w2 >= 0,
        mn <= p0 <= mx,
        mn <= p1 <= mx,
        mn <= p2 <= mx,
    ensures
        (w0 + w1 + w2) * mn <= w0 * p0 + w1 * p1 + w2 * p2,
        w0 * p0 + w1 * p1 + w2 * p2 <= (w0 + w1 + w2) * mx,
{
}

/// One axis of the containment argument: if the weighted-vertex identity
/// holds with barycentric weights, the hit coordinate stays between the
/// box walls (scaled by the positive determinant).
proof fn lemma_axis_from_convex(
    dd: int, unn: int, vnn: int, tnn: int,
    o: int, dvx: int,
    p0: int, p1: int, p2: int,
    mn: int, mx: int,
)
    requires
        dd > 0,
        unn >= 0,
        vnn >= 0,
        unn + vnn <= dd,
        mn <= p0 <= mx,
        mn <= p1 <= mx,
        mn <= p2 <= mx,
        dd * (o - p0) == unn * (p1 - p0) + vnn * (p2 - p0) - tnn * dvx,
    ensures
        dd * mn <= dd * o + tnn * dvx,
        dd * o + tnn * dvx <= dd * mx,
{
    lemma_mul_sub(dd, o, p0);
    lemma_mul_sub(unn, p1, p0);
    lemma_mul_sub(vnn, p2, p0);
    lemma_sub2_mul(dd, unn, vnn, p0);
    lemma_convex3(dd - unn - vnn, unn, vnn, p0, p1, p2, mn, mx);
}

/// A triangle hit lies inside any box that holds the triangle's three
/// vertices: the ray is inside the box at the hit parameter.
pub proof fn lemma_tri_hit_in_box(tri: Triangle3d, ray: Ray, b: Aabb, tn: int, td: int)
    requires
        tri.spec_hit(ray) == Some((tn, td)),
        tn <= (ray.max as int) * td,
        b.contains_point(tri.v0),
        b.contains_point(tri.v1),
        b.contains_point(tri.v2),
    ensures
        crate::query::ray_in_box_at(b, ray, tn, td),
{
    let e1 = tri.v1.view().sub(tri.v0.view());
    let e2 = tri.v2.view().sub(tri.v0.view());
    let dv = ray.direction.view();
    let sv = ray.origin.view().sub(tri.v0.view());
    let det = tri.spec_det(ray);
    let unr = tri.spec_u_num(ray);
    let vnr = tri.spec_v_num(ray);
    let tnr = tri.spec_t_num(ray);
    lemma_triangle_solution(e1, e2, dv, sv);
    assert(det * sv.x == unr * e1.x + vnr * e2.x - tnr * dv.x);
    assert(det * sv.y == unr * e1.y + vnr * e2.y - tnr * dv.y);
    assert(det * sv.z == unr * e1.z + vnr * e2.z - tnr * dv.z);
    let dd = td;
    let unn: int = if det < 0 { -unr } else { unr };
    let vnn: int = if det < 0 { -vnr } else { vnr };
    if det < 0 {
        lemma_mul_neg(det, sv.x);
        lemma_mul_neg(det, sv.y);
        lemma_mul_neg(det, sv.z);
        lemma_mul_neg(unr, e1.x);
        lemma_mul_neg(unr, e1.y);
        lemma_mul_neg(unr, e1.z);
        lemma_mul_neg(vnr, e2.x);
        lemma_mul_neg(vnr, e2.y);
        lemma_mul_neg(vnr, e2.z);
        lemma_mul_neg(tnr, dv.x);
        lemma_mul_neg(tnr, dv.y);
        lemma_mul_neg(tnr, dv.z);
    }
    assert(dd * sv.x == unn * e1.x + vnn * e2.x - tn * dv.x);
    assert(dd * sv.y == unn * e1.y + vnn * e2.y - tn * dv.y);
    assert(dd * sv.z == unn * e1.z + vnn * e2.z - tn * dv.z);
    lemma_axis_from_convex(
        dd, unn, vnn, tn,
        ray.origin.x as int, ray.direction.x as int,
        tri.v0.x as int, tri.v1.x as int, tri.v2.x as int,
        b.min.x as int, b.max.x as int,
    );
    lemma_axis_from_convex(
        dd, unn, vnn, tn,
        ray.origin.y as int, ray.direction.y as int,
        tri.v0.y as int, tri.v1.y as int, tri.v2.y as int,
        b.min.y as int, b.max.y as int,
    );
    lemma_axis_from_convex(
        dd, unn, vnn, tn,
        ray.origin.z as int, ray.direction.z as int,
        tri.v0.z as int, tri.v1.z as int, tri.v2.z as int,
        b.min.z as int, b.max.z as int,
    );
}

} // verus!
