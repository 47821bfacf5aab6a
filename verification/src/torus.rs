//! Analytic torus intersection for rotation-gizmo picking.
//!
//! Substituting the ray parametrization into the implicit torus equation
//! yields a quartic in the parameter `t`. The coefficients are polynomial
//! in the inputs and are computed here exactly, in fixed point; a common
//! factor of `SCALE^4` makes them homogeneous, so their real roots are the
//! intersection parameters unchanged. Extracting real roots of a quartic
//! needs irrational arithmetic, which the embedding layer does in floating
//! point; the choice among the returned roots — the smallest non-negative
//! one within range — is made back here, exactly.
//!
//! Reference for the coefficient derivation: Cosine Kitty's ray-tracing
//! notes on the torus.

use vstd::prelude::*;
use crate::vec3::Vec3i;
use crate::vec3::V3;
use crate::tri::Ray;
use crate::ratio::lemma_mul_bound2;

verus! {

/// A torus in its local frame: ring radius, tube thickness and center,
/// all fixed point. The caller rotates the ray into this frame.
#[derive(Clone, Copy, PartialEq, Eq, Structural, Debug)]
pub struct Torus {
    pub ring_radius: i64,
    pub ring_thickness: i64,
    pub position: Vec3i,
}

/// Quartic coefficients `a4 t^4 + a3 t^3 + a2 t^2 + a1 t + a0`.
#[derive(Clone, Copy, PartialEq, Eq, Structural, Debug)]
pub struct QuarticCoefficients {
    pub a4: i128,
    pub a3: i128,
    pub a2: i128,
    pub a1: i128,
    pub a0: i128,
}

/// The exact coefficient tuple for ring radius `a`, thickness `b`, ray
/// origin offset `d` and direction `e`.
pub open spec fn spec_torus_quartic(a: int, b: int, d: V3, e: V3) -> (int, int, int, int, int) {
    let g = 4 * (a * a) * (e.x * e.x + e.z * e.z);
    let h = 8 * (a * a) * (d.x * e.x + d.z * e.z);
    let i = 4 * (a * a) * (d.x * d.x + d.z * d.z);
    let j = e.x * e.x + e.y * e.y + e.z * e.z;
    let k = 2 * (d.x * e.x + d.y * e.y + d.z * e.z);
    let l = (d.x * d.x + d.y * d.y + d.z * d.z) + (a * a - b * b);
    (j * j, 2 * (j * k), 2 * (j * l) + k * k - g, 2 * (k * l) - h, l * l - i)
}

impl Torus {
    pub open spec fn wf(self) -> bool {
        &&& 0 <= self.ring_radius <= crate::MAX_COORD
        &&& 0 <= self.ring_thickness <= crate::MAX_COORD
        &&& self.position.bounded(crate::MAX_COORD as int)
    }

    pub fn new(ring_radius: i64, ring_thickness: i64, position: Vec3i) -> (r: Torus)
        ensures
            r == (Torus { ring_radius, ring_thickness, position }),
    {
        Torus { ring_radius, ring_thickness, position }
    }

    /// The exact quartic whose non-negative real roots are the parameters
    /// at which the ray meets the torus surface. `d` is the ray origin
    /// relative to the center, `e` the ray direction.
    pub fn quartic_coefficients(&self, ray: &Ray) -> (r: QuarticCoefficients)
        requires
            self.wf(),
            ray.wf(),
        ensures
            ({
                let c = spec_torus_quartic(
                    self.ring_radius as int,
                    self.ring_thickness as int,
                    ray.origin.view().sub(self.position.view()),
                    ray.direction.view(),
                );
                &&& r.a4 == c.0
                &&& r.a3 == c.1
                &&& r.a2 == c.2
                &&& r.a1 == c.3
                &&& r.a0 == c.4
            }),
    {
        let dx: i128 = ray.origin.x as i128 - self.position.x as i128;
        let dy: i128 = ray.origin.y as i128 - self.position.y as i128;
        let dz: i128 = ray.origin.z as i128 - self.position.z as i128;
        let ex: i128 = ray.direction.x as i128;
        let ey: i128 = ray.direction.y as i128;
        let ez: i128 = ray.direction.z as i128;
        let a: i128 = self.ring_radius as i128;
        let b: i128 = self.ring_thickness as i128;
        proof {
            lemma_mul_bound2(a as int, a as int, 0x10000, 0x10000);
            lemma_mul_bound2(b as int, b as int, 0x10000, 0x10000);
            lemma_mul_bound2(ex as int, ex as int, 0x10000, 0x10000);
            lemma_mul_bound2(ey as int, ey as int, 0x10000, 0x10000);
            lemma_mul_bound2(ez as int, ez as int, 0x10000, 0x10000);
            lemma_mul_bound2(dx as int, dx as int, 0x20000, 0x20000);
            lemma_mul_bound2(dy as int, dy as int, 0x20000, 0x20000);
            lemma_mul_bound2(dz as int, dz as int, 0x20000, 0x20000);
            lemma_mul_bound2(dx as int, ex as int, 0x20000, 0x10000);
            lemma_mul_bound2(dy as int, ey as int, 0x20000, 0x10000);
            lemma_mul_bound2(dz as int, ez as int, 0x20000, 0x10000);
        }
        let a_sq: i128 = a * a;
        let four_a_sq: i128 = 4 * a_sq;
        let eight_a_sq: i128 = 8 * a_sq;
        proof {
            lemma_mul_bound2(four_a_sq as int, (ex * ex + ez * ez) as int, 0x400000000, 0x200000000);
            lemma_mul_bound2(
                eight_a_sq as int, (dx * ex + dz * ez) as int, 0x800000000, 0x400000000);
            lemma_mul_bound2(four_a_sq as int, (dx * dx + dz * dz) as int, 0x400000000, 0x800000000);
        }
        let g: i128 = four_a_sq * (ex * ex + ez * ez);
        let h: i128 = eight_a_sq * (dx * ex + dz * ez);
        let i: i128 = four_a_sq * (dx * dx + dz * dz);
        let j: i128 = ex * ex + ey * ey + ez * ez;
        let k: i128 = 2 * (dx * ex + dy * ey + dz * ez);
        let l: i128 = (dx * dx + dy * dy + dz * dz) + (a_sq - b * b);
        proof {
            lemma_mul_bound2(a_sq as int, (ex * ex + ez * ez) as int, 0x100000000, 0x200000000);
            lemma_mul_bound2(a_sq as int, (dx * ex + dz * ez) as int, 0x100000000, 0x400000000);
            lemma_mul_bound2(a_sq as int, (dx * dx + dz * dz) as int, 0x100000000, 0x800000000);
            lemma_mul_bound2(j as int, j as int, 0x300000000, 0x300000000);
            lemma_mul_bound2(j as int, k as int, 0x300000000, 0x1800000000);
            lemma_mul_bound2(j as int, l as int, 0x300000000, 0x1000000000);
            lemma_mul_bound2(k as int, k as int, 0x1800000000, 0x1800000000);
            lemma_mul_bound2(k as int, l as int, 0x1800000000, 0x1000000000);
            lemma_mul_bound2(l as int, l as int, 0x1000000000, 0x1000000000);
        }
        let a4: i128 = j * j;
        let a3: i128 = 2 * (j * k);
        let a2: i128 = 2 * (j * l) + k * k - g;
        let a1: i128 = 2 * (k * l) - h;
        let a0: i128 = l * l - i;
        QuarticCoefficients { a4, a3, a2, a1, a0 }
    }
}

/// The smallest non-negative value among the first `k` roots.
pub open spec fn spec_closest_root(roots: Seq<i64>, k: int) -> Option<int>
    decreases k,
{
    if k <= 0 {
        None
    } else {
        let prev = spec_closest_root(roots, k - 1);
        let t = roots[k - 1] as int;
        if t < 0 {
            prev
        } else {
            match prev {
                Option::None => Some(t),
                Option::Some(p) => if t < p {
                    Some(t)
                } else {
                    Some(p)
                },
            }
        }
    }
}

/// Picks the hit among the quartic's real roots: the smallest
/// non-negative one, and only when it does not exceed `max`. With no
/// non-negative root, or the nearest one out of range, there is no hit.
pub fn closest_root_within(roots: &Vec<i64>, max: i64) -> (r: Option<i64>)
    ensures
        ({
            match spec_closest_root(roots@, roots@.len() as int) {
                Option::None => r is None,
                Option::Some(m) => if m <= max {
                    r is Some && r->Some_0 == m
                } else {
                    r is None
                },
            }
        }),
{
    let mut best: Option<i64> = Option::None;
    let mut k: usize = 0;
    while k < roots.len()
        invariant
            k <= roots@.len(),
            best is Some <==> spec_closest_root(roots@, k as int) is Some,
            best is Some ==> best->Some_0 == spec_closest_root(roots@, k as int)->Some_0,
        decreases roots@.len() - k,
    {
        let t = roots[k];
        if t >= 0 {
            best = match best {
                Option::None => Option::Some(t),
                Option::Some(p) => if t < p {
                    Option::Some(t)
                } else {
                    Option::Some(p)
                },
            };
        }
        k = k + 1;
    }
    match best {
        Option::None => Option::None,
        Option::Some(m) => if m <= max {
            Option::Some(m)
        } else {
            Option::None
        },
    }
}

} // verus!
