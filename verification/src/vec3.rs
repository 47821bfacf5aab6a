//! Fixed-point 3-vectors and the spec-level vector algebra the contracts use.

use vstd::prelude::*;
use crate::ratio::lemma_mul_bound2;

verus! {

/// A point or direction in mesh space, each coordinate a fixed-point `i64`.
#[derive(Clone, Copy, PartialEq, Eq, Structural, Debug)]
pub struct Vec3i {
    pub x: i64,
    pub y: i64,
    pub z: i64,
}

/// Spec-level integer 3-vector, used by contracts for exact intermediate
/// values that may exceed `i64`.
pub ghost struct V3 {
    pub x: int,
    pub y: int,
    pub z: int,
}

impl Vec3i {
    pub fn new(x: i64, y: i64, z: i64) -> (r: Vec3i)
        ensures
            r == (Vec3i { x, y, z }),
    {
        Vec3i { x, y, z }
    }

    /// Every coordinate within `[-b, b]`.
    pub open spec fn bounded(self, b: int) -> bool {
        &&& -b <= self.x <= b
        &&& -b <= self.y <= b
        &&& -b <= self.z <= b
    }

    /// The coordinate on axis `a` (0 = x, 1 = y, 2 = z).
    pub open spec fn axis(self, a: int) -> int {
        if a == 0 {
            self.x as int
        } else if a == 1 {
            self.y as int
        } else {
            self.z as int
        }
    }

    pub fn get_axis(&self, a: usize) -> (r: i64)
        requires
            a < 3,
        ensures
            r as int == self.axis(a as int),
    {
        if a == 0 {
            self.x
        } else if a == 1 {
            self.y
        } else {
            self.z
        }
    }

    pub open spec fn view(self) -> V3 {
        V3 { x: self.x as int, y: self.y as int, z: self.z as int }
    }
}

impl V3 {
    pub open spec fn bounded(self, b: int) -> bool {
        &&& -b <= self.x <= b
        &&& -b <= self.y <= b
        &&& -b <= self.z <= b
    }

    /// The coordinate on axis `a` (0 = x, 1 = y, 2 = z).
    pub open spec fn axis(self, a: int) -> int {
        if a == 0 {
            self.x
        } else if a == 1 {
            self.y
        } else {
            self.z
        }
    }

    pub open spec fn add(self, other: V3) -> V3 {
        V3 { x: self.x + other.x, y: self.y + other.y, z: self.z + other.z }
    }

    pub open spec fn sub(self, other: V3) -> V3 {
        V3 { x: self.x - other.x, y: self.y - other.y, z: self.z - other.z }
    }

    pub open spec fn dot(self, other: V3) -> int {
        self.x * other.x + self.y * other.y + self.z * other.z
    }

    pub open spec fn cross(self, other: V3) -> V3 {
        V3 {
            x: self.y * other.z - self.z * other.y,
            y: self.z * other.x - self.x * other.z,
            z: self.x * other.y - self.y * other.x,
        }
    }
}

/// Bound on a cross product from bounds on its operands.
pub proof fn lemma_cross_bounded(a: V3, b: V3, aa: int, bb: int)
    requires
        a.bounded(aa),
        b.bounded(bb),
        0 <= aa,
        0 <= bb,
    ensures
        a.cross(b).bounded(2 * (aa * bb)),
{
    lemma_mul_bound2(a.x, b.y, aa, bb);
    lemma_mul_bound2(a.x, b.z, aa, bb);
    lemma_mul_bound2(a.y, b.x, aa, bb);
    lemma_mul_bound2(a.y, b.z, aa, bb);
    lemma_mul_bound2(a.z, b.x, aa, bb);
    lemma_mul_bound2(a.z, b.y, aa, bb);
}

/// Bound on a dot product from bounds on its operands.
pub proof fn lemma_dot_bounded(a: V3, b: V3, aa: int, bb: int)
    requires
        a.bounded(aa),
        b.bounded(bb),
        0 <= aa,
        0 <= bb,
    ensures
        -(3 * (aa * bb)) <= a.dot(b) <= 3 * (aa * bb),
{
    lemma_mul_bound2(a.x, b.x, aa, bb);
    lemma_mul_bound2(a.y, b.y, aa, bb);
    lemma_mul_bound2(a.z, b.z, aa, bb);
}

} // verus!
