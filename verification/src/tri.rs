//! Exact ray–triangle intersection and the fan test for convex faces.
//!
//! The triangle test is the classical edge/cross-product formulation solved
//! with integer cross-multiplication instead of floating division: the
//! barycentric conditions are checked against the (sign-normalized)
//! determinant, and the hit parameter comes back as an exact `Ratio`. A ray
//! exactly parallel to the triangle plane (determinant zero) misses, and so
//! does a hit at parameter zero, which would be a self-intersection at the
//! ray origin.

use vstd::prelude::*;
use crate::vec3::Vec3i;
use crate::vec3::V3;
use crate::vec3::lemma_cross_bounded;
use crate::vec3::lemma_dot_bounded;
use crate::ratio::Ratio;
use crate::xform::Placement;
use crate::xform::place_coord;
use crate::mesh::all_bounded;

verus! {

/// A ray in the mesh's local orientation frame: origin, direction (not
/// necessarily normalized) and the largest admissible parameter. The hit
/// parameter `t` is measured in multiples of `direction`.
#[derive(Clone, Copy, PartialEq, Eq, Structural, Debug)]
pub struct Ray {
    pub origin: Vec3i,
    pub direction: Vec3i,
    pub max: i64,
}

impl Ray {
    pub open spec fn wf(self) -> bool {
        &&& self.origin.bounded(crate::MAX_COORD as int)
        &&& self.direction.bounded(crate::MAX_COORD as int)
        &&& 0 <= self.max
    }
}

/// A triangle given by three vertices (counter-clockwise winding).
#[derive(Clone, Copy, PartialEq, Eq, Structural, Debug)]
pub struct Triangle3d {
    pub v0: Vec3i,
    pub v1: Vec3i,
    pub v2: Vec3i,
}

impl Triangle3d {
    pub fn new(v0: Vec3i, v1: Vec3i, v2: Vec3i) -> (r: Triangle3d)
        ensures
            r == (Triangle3d { v0, v1, v2 }),
    {
        Triangle3d { v0, v1, v2 }
    }

    pub open spec fn bounded(self, b: int) -> bool {
        &&& self.v0.bounded(b)
        &&& self.v1.bounded(b)
        &&& self.v2.bounded(b)
    }

    /// `e1 . (d x e2)`: the determinant of the intersection system.
    pub open spec fn spec_det(self, ray: Ray) -> int {
        self.v1.view().sub(self.v0.view()).dot(
            ray.direction.view().cross(self.v2.view().sub(self.v0.view())),
        )
    }

    /// Numerator of the first barycentric coordinate.
    pub open spec fn spec_u_num(self, ray: Ray) -> int {
        ray.origin.view().sub(self.v0.view()).dot(
            ray.direction.view().cross(self.v2.view().sub(self.v0.view())),
        )
    }

    /// Numerator of the second barycentric coordinate.
    pub open spec fn spec_v_num(self, ray: Ray) -> int {
        ray.direction.view().dot(
            ray.origin.view().sub(self.v0.view()).cross(self.v1.view().sub(self.v0.view())),
        )
    }

    /// Numerator of the hit parameter.
    pub open spec fn spec_t_num(self, ray: Ray) -> int {
        self.v2.view().sub(self.v0.view()).dot(
            ray.origin.view().sub(self.v0.view()).cross(self.v1.view().sub(self.v0.view())),
        )
    }

    /// The exact outcome of the triangle test: `None` on a parallel ray, a
    /// barycentric coordinate outside the triangle, or a non-positive
    /// parameter; otherwise the parameter as a sign-normalized
    /// numerator/denominator pair. The ray's `max` is not consulted here.
    pub open spec fn spec_hit(self, ray: Ray) -> Option<(int, int)> {
        let det = self.spec_det(ray);
        if det == 0 {
            None
        } else {
            let dd: int = if det < 0 { -det } else { det };
            let un: int = if det < 0 { -self.spec_u_num(ray) } else { self.spec_u_num(ray) };
            let vn: int = if det < 0 { -self.spec_v_num(ray) } else { self.spec_v_num(ray) };
            let tn: int = if det < 0 { -self.spec_t_num(ray) } else { self.spec_t_num(ray) };
            if un < 0 || un > dd {
                None
            } else if vn < 0 || un + vn > dd {
                None
            } else if tn <= 0 {
                None
            } else {
                Some((tn, dd))
            }
        }
    }

    /// Exact triangle test; the result is `spec_hit`, with the bounds a
    /// `Ratio` comparison needs.
    pub fn intersects_ray_at(&self, ray: &Ray) -> (r: Option<Ratio>)
        requires
            self.bounded(crate::MAX_PLACED as int),
            ray.wf(),
        ensures
            r is Some <==> self.spec_hit(*ray) is Some,
            r is Some ==> {
                &&& r->Some_0.num == self.spec_hit(*ray)->Some_0.0
                &&& r->Some_0.den == self.spec_hit(*ray)->Some_0.1
                &&& r->Some_0.wf()
                &&& r->Some_0.num > 0
            },
    {
        let e1 = (
            self.v1.x as i128 - self.v0.x as i128,
            self.v1.y as i128 - self.v0.y as i128,
            self.v1.z as i128 - self.v0.z as i128,
        );
        let e2 = (
            self.v2.x as i128 - self.v0.x as i128,
            self.v2.y as i128 - self.v0.y as i128,
            self.v2.z as i128 - self.v0.z as i128,
        );
        let d = (
            ray.direction.x as i128,
            ray.direction.y as i128,
            ray.direction.z as i128,
        );
        let s = (
            ray.origin.x as i128 - self.v0.x as i128,
            ray.origin.y as i128 - self.v0.y as i128,
            ray.origin.z as i128 - self.v0.z as i128,
        );
        let h = cross_exec(d, e2, Ghost(0x10000), Ghost(0x100000));
        let det = dot_exec(e1, h, Ghost(0x100000), Ghost(0x2000000000));
        let u_num = dot_exec(s, h, Ghost(0x100000), Ghost(0x2000000000));
        let q = cross_exec(s, e1, Ghost(0x100000), Ghost(0x100000));
        let v_num = dot_exec(d, q, Ghost(0x10000), Ghost(0x20000000000));
        let t_num = dot_exec(e2, q, Ghost(0x100000), Ghost(0x20000000000));
        proof {
            assert(tup_view(e1) == self.v1.view().sub(self.v0.view()));
            assert(tup_view(e2) == self.v2.view().sub(self.v0.view()));
            assert(tup_view(d) == ray.direction.view());
            assert(tup_view(s) == ray.origin.view().sub(self.v0.view()));
            assert(det as int == self.spec_det(*ray));
            assert(u_num as int == self.spec_u_num(*ray));
            assert(v_num as int == self.spec_v_num(*ray));
            assert(t_num as int == self.spec_t_num(*ray));
        }
        if det == 0 {
            return None;
        }
        let neg = det < 0;
        let dd: i128 = if neg { -det } else { det };
        let un: i128 = if neg { -u_num } else { u_num };
        let vn: i128 = if neg { -v_num } else { v_num };
        let tn: i128 = if neg { -t_num } else { t_num };
        if un < 0 || un > dd {
            return None;
        }
        if vn < 0 || un + vn > dd {
            return None;
        }
        if tn <= 0 {
            return None;
        }
        Some(Ratio { num: tn, den: dd })
    }
}

/// Componentwise bound on an integer triple.
pub open spec fn tup_bounded(a: (i128, i128, i128), b: int) -> bool {
    &&& -b <= a.0 <= b
    &&& -b <= a.1 <= b
    &&& -b <= a.2 <= b
}

/// The triple as a spec vector.
pub open spec fn tup_view(a: (i128, i128, i128)) -> V3 {
    V3 { x: a.0 as int, y: a.1 as int, z: a.2 as int }
}

fn cross_exec(a: (i128, i128, i128), b: (i128, i128, i128), aa: Ghost<int>, bb: Ghost<int>) -> (r: (
    i128,
    i128,
    i128,
))
    requires
        tup_bounded(a, aa@),
        tup_bounded(b, bb@),
        0 <= aa@,
        0 <= bb@,
        2 * (aa@ * bb@) < 0x40000000000000000000000000000000,
    ensures
        tup_view(r) == tup_view(a).cross(tup_view(b)),
        tup_bounded(r, 2 * (aa@ * bb@)),
{
    proof {
        lemma_cross_bounded(tup_view(a), tup_view(b), aa@, bb@);
        crate::ratio::lemma_mul_bound2(a.1 as int, b.2 as int, aa@, bb@);
        crate::ratio::lemma_mul_bound2(a.2 as int, b.1 as int, aa@, bb@);
        crate::ratio::lemma_mul_bound2(a.2 as int, b.0 as int, aa@, bb@);
        crate::ratio::lemma_mul_bound2(a.0 as int, b.2 as int, aa@, bb@);
        crate::ratio::lemma_mul_bound2(a.0 as int, b.1 as int, aa@, bb@);
        crate::ratio::lemma_mul_bound2(a.1 as int, b.0 as int, aa@, bb@);
    }
    (a.1 * b.2 - a.2 * b.1, a.2 * b.0 - a.0 * b.2, a.0 * b.1 - a.1 * b.0)
}

fn dot_exec(a: (i128, i128, i128), b: (i128, i128, i128), aa: Ghost<int>, bb: Ghost<int>) -> (r:
    i128)
    requires
        tup_bounded(a, aa@),
        tup_bounded(b, bb@),
        0 <= aa@,
        0 <= bb@,
        3 * (aa@ * bb@) < 0x40000000000000000000000000000000,
    ensures
        r == tup_view(a).dot(tup_view(b)),
        -(3 * (aa@ * bb@)) <= r <= 3 * (aa@ * bb@),
{
    proof {
        lemma_dot_bounded(tup_view(a), tup_view(b), aa@, bb@);
        crate::ratio::lemma_mul_bound2(a.0 as int, b.0 as int, aa@, bb@);
        crate::ratio::lemma_mul_bound2(a.1 as int, b.1 as int, aa@, bb@);
        crate::ratio::lemma_mul_bound2(a.2 as int, b.2 as int, aa@, bb@);
    }
    a.0 * b.0 + a.1 * b.1 + a.2 * b.2
}

/// The placed image of a vertex list.
pub open spec fn spec_placed_seq(p: Placement, vs: Seq<Vec3i>) -> Seq<Vec3i> {
    Seq::new(
        vs.len(),
        |k: int| Vec3i {
            x: place_coord(vs[k].x as int, p.scale.x as int, p.translation.x as int) as i64,
            y: place_coord(vs[k].y as int, p.scale.y as int, p.translation.y as int) as i64,
            z: place_coord(vs[k].z as int, p.scale.z as int, p.translation.z as int) as i64,
        },
    )
}

/// The first triangle of the fan `(pv[0], pv[i], pv[i+1])`, `i` counting up
/// from the given start, that reports a hit; `None` when none does.
pub open spec fn spec_fan_first(pv: Seq<Vec3i>, ray: Ray, i: int) -> Option<(int, int)>
    decreases pv.len() - i,
{
    if i < 1 || i + 1 >= pv.len() {
        None
    } else {
        let tri = Triangle3d { v0: pv[0], v1: pv[i], v2: pv[i + 1] };
        match tri.spec_hit(ray) {
            Some(t) => Some(t),
            None => spec_fan_first(pv, ray, i + 1),
        }
    }
}

/// A fan hit always carries a positive parameter over a positive
/// denominator.
pub proof fn lemma_fan_first_pos(pv: Seq<Vec3i>, ray: Ray, i: int)
    ensures
        spec_fan_first(pv, ray, i) matches Some(t) ==> t.0 > 0 && t.1 > 0,
    decreases pv.len() - i,
{
    if 1 <= i && i + 1 < pv.len() {
        lemma_fan_first_pos(pv, ray, i + 1);
    }
}

/// A fan hit is some fan triangle's hit: the first reporting triangle.
pub proof fn lemma_fan_first_tri(pv: Seq<Vec3i>, ray: Ray, i: int)
    ensures
        spec_fan_first(pv, ray, i) matches Some(t) ==> exists|j: int|
            1 <= j && i <= j && j + 1 < pv.len() && (#[trigger] (Triangle3d {
                v0: pv[0],
                v1: pv[j],
                v2: pv[j + 1],
            }).spec_hit(ray)) == Some(t),
    decreases pv.len() - i,
{
    if 1 <= i && i + 1 < pv.len() {
        let tri = Triangle3d { v0: pv[0], v1: pv[i], v2: pv[i + 1] };
        if tri.spec_hit(ray) is Some {
            assert(1 <= i && i <= i && i + 1 < pv.len() && (Triangle3d {
                v0: pv[0],
                v1: pv[i],
                v2: pv[i + 1],
            }).spec_hit(ray) == Some(spec_fan_first(pv, ray, i)->Some_0));
        } else {
            lemma_fan_first_tri(pv, ray, i + 1);
        }
    }
}

/// The outcome of the convex-face test: the first fan triangle hit, kept
/// only when its parameter is strictly below the ray's `max`.
pub open spec fn spec_convex_hit(pv: Seq<Vec3i>, ray: Ray) -> Option<(int, int)> {
    match spec_fan_first(pv, ray, 1) {
        Some(t) => if t.0 < ray.max * t.1 {
            Some(t)
        } else {
            None
        },
        None => None,
    }
}

/// Tests a ray against a placed convex polygon: the vertices (counter-
/// clockwise, at least three) are placed by `placement`, fan-triangulated
/// from the first, and the first triangle hit within range wins. The
/// precondition does not ask for planarity or convexity; without them the
/// answer is still exactly `spec_convex_hit`, which then simply reflects
/// the fan.
pub fn ray_intersects_convex_plane_at(ray: &Ray, placement: &Placement, vertices: &Vec<Vec3i>) -> (r:
    Option<Ratio>)
    requires
        ray.wf(),
        placement.wf(),
        vertices@.len() >= 3,
        all_bounded(vertices@, crate::MAX_COORD as int),
    ensures
        r is Some <==> spec_convex_hit(spec_placed_seq(*placement, vertices@), *ray) is Some,
        r is Some ==> {
            &&& r->Some_0.num == spec_convex_hit(spec_placed_seq(*placement, vertices@), *ray)->Some_0.0
            &&& r->Some_0.den == spec_convex_hit(spec_placed_seq(*placement, vertices@), *ray)->Some_0.1
            &&& r->Some_0.wf()
            &&& r->Some_0.num > 0
            &&& r->Some_0.spec_lt_int(ray.max as int)
        },
{
    let ghost pv_spec = spec_placed_seq(*placement, vertices@);
    let mut pv: Vec<Vec3i> = Vec::new();
    let mut k: usize = 0;
    while k < vertices.len()
        invariant
            k <= vertices@.len(),
            pv@.len() == k,
            forall|j: int| 0 <= j < k ==> #[trigger] pv@[j] == pv_spec[j],
            forall|j: int| 0 <= j < k ==> (#[trigger] pv@[j]).bounded(crate::MAX_PLACED as int),
        decreases vertices@.len() - k,
    {
        let p = placement.place_point(&vertices[k]);
        pv.push(p);
        k = k + 1;
    }
    let n = pv.len();
    let mut i: usize = 1;
    while i + 1 < n
        invariant
            1 <= i,
            i + 1 <= n == pv@.len() == vertices@.len(),
            forall|j: int| 0 <= j < n ==> #[trigger] pv@[j] == pv_spec[j],
            forall|j: int| 0 <= j < n ==> (#[trigger] pv@[j]).bounded(crate::MAX_PLACED as int),
            spec_fan_first(pv_spec, *ray, 1) == spec_fan_first(pv_spec, *ray, i as int),
        decreases n - i,
    {
        let tri = Triangle3d { v0: pv[0], v1: pv[i], v2: pv[i + 1] };
        proof {
            assert(tri == (Triangle3d { v0: pv_spec[0], v1: pv_spec[i as int], v2: pv_spec[i + 1] }));
        }
        let result = tri.intersects_ray_at(ray);
        if let Some(t) = result {
            if t.lt_int(ray.max) {
                return Some(t);
            } else {
                return None;
            }
        }
        i = i + 1;
    }
    None
}

} // verus!
