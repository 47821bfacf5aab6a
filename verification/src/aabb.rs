//! Axis-aligned bounding boxes in fixed-point mesh space.

use vstd::prelude::*;
use crate::vec3::Vec3i;
use crate::ratio::lemma_mul_bound2;

verus! {

/// Min/max corners; `wf()` asks `min <= max` componentwise. A degenerate
/// single-point box is legal.
#[derive(Clone, Copy, PartialEq, Eq, Structural, Debug)]
pub struct Aabb {
    pub min: Vec3i,
    pub max: Vec3i,
}

pub open spec fn min_i64(a: i64, b: i64) -> i64 {
    if a <= b {
        a
    } else {
        b
    }
}

pub open spec fn max_i64(a: i64, b: i64) -> i64 {
    if a >= b {
        a
    } else {
        b
    }
}

impl Aabb {
    pub open spec fn wf(self) -> bool {
        &&& self.min.x <= self.max.x
        &&& self.min.y <= self.max.y
        &&& self.min.z <= self.max.z
    }

    pub open spec fn bounded(self, b: int) -> bool {
        self.min.bounded(b) && self.max.bounded(b)
    }

    /// `other` lies entirely inside `self`.
    pub open spec fn contains_box(self, other: Aabb) -> bool {
        &&& self.min.x <= other.min.x && other.max.x <= self.max.x
        &&& self.min.y <= other.min.y && other.max.y <= self.max.y
        &&& self.min.z <= other.min.z && other.max.z <= self.max.z
    }

    /// The point `v` lies inside `self`.
    pub open spec fn contains_point(self, v: Vec3i) -> bool {
        &&& self.min.x <= v.x <= self.max.x
        &&& self.min.y <= v.y <= self.max.y
        &&& self.min.z <= v.z <= self.max.z
    }

    /// Smallest box holding both arguments.
    pub open spec fn spec_merge(a: Aabb, b: Aabb) -> Aabb {
        Aabb {
            min: Vec3i {
                x: min_i64(a.min.x, b.min.x),
                y: min_i64(a.min.y, b.min.y),
                z: min_i64(a.min.z, b.min.z),
            },
            max: Vec3i {
                x: max_i64(a.max.x, b.max.x),
                y: max_i64(a.max.y, b.max.y),
                z: max_i64(a.max.z, b.max.z),
            },
        }
    }

    /// The box covering exactly one point.
    pub open spec fn spec_from_point(v: Vec3i) -> Aabb {
        Aabb { min: v, max: v }
    }

    pub fn from_point(v: Vec3i) -> (r: Aabb)
        ensures
            r == Self::spec_from_point(v),
    {
        Aabb { min: v, max: v }
    }

    pub fn merge(&self, other: &Aabb) -> (r: Aabb)
        ensures
            r == Self::spec_merge(*self, *other),
    {
        Aabb {
            min: Vec3i {
                x: if self.min.x <= other.min.x { self.min.x } else { other.min.x },
                y: if self.min.y <= other.min.y { self.min.y } else { other.min.y },
                z: if self.min.z <= other.min.z { self.min.z } else { other.min.z },
            },
            max: Vec3i {
                x: if self.max.x >= other.max.x { self.max.x } else { other.max.x },
                y: if self.max.y >= other.max.y { self.max.y } else { other.max.y },
                z: if self.max.z >= other.max.z { self.max.z } else { other.max.z },
            },
        }
    }

    /// Half the surface area: `dx*dy + dy*dz + dz*dx`. Surface areas only
    /// ever get compared, so the factor of two is dropped throughout.
    pub open spec fn spec_half_area(self) -> int {
        let dx = self.max.x - self.min.x;
        let dy = self.max.y - self.min.y;
        let dz = self.max.z - self.min.z;
        dx * dy + dy * dz + dz * dx
    }

    pub fn half_area(&self) -> (r: i128)
        requires
            self.wf(),
            self.bounded(crate::MAX_COORD as int),
        ensures
            r == self.spec_half_area(),
            0 <= r <= 0x3000000000,
    {
        let dx: i128 = self.max.x as i128 - self.min.x as i128;
        let dy: i128 = self.max.y as i128 - self.min.y as i128;
        let dz: i128 = self.max.z as i128 - self.min.z as i128;
        proof {
            lemma_mul_bound2(dx as int, dy as int, 0x20000, 0x20000);
            lemma_mul_bound2(dy as int, dz as int, 0x20000, 0x20000);
            lemma_mul_bound2(dz as int, dx as int, 0x20000, 0x20000);
            lemma_area_term_nonneg(dx as int, dy as int);
            lemma_area_term_nonneg(dy as int, dz as int);
            lemma_area_term_nonneg(dz as int, dx as int);
        }
        dx * dy + dy * dz + dz * dx
    }
}

proof fn lemma_area_term_nonneg(a: int, b: int) by (nonlinear_arith)
    requires
        a >= 0,
        b >= 0,
    ensures
        a * b >= 0,
{
}

/// Merging keeps well-formedness and contains both arguments; it is the
/// least such box.
pub proof fn lemma_merge_properties(a: Aabb, b: Aabb)
    requires
        a.wf(),
        b.wf(),
    ensures
        Aabb::spec_merge(a, b).wf(),
        Aabb::spec_merge(a, b).contains_box(a),
        Aabb::spec_merge(a, b).contains_box(b),
        forall|c: Aabb| c.contains_box(a) && c.contains_box(b) ==> c.contains_box(
            #[trigger] Aabb::spec_merge(a, b),
        ),
{
}

/// Containment is transitive.
pub proof fn lemma_contains_trans(a: Aabb, b: Aabb, c: Aabb)
    requires
        a.contains_box(b),
        b.contains_box(c),
    ensures
        a.contains_box(c),
{
}

} // verus!
