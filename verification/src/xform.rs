//! Rigid placement of a mesh: fixed-point translation and (positive,
//! possibly non-uniform) scale.
//!
//! Rotation is not represented here: queries take a ray already expressed in
//! the mesh's local orientation frame (the embedding layer rotates the
//! world-space ray), while translation and scale are applied exactly, to the
//! geometry, by the functions below — to node boxes and face vertices alike,
//! with the same flooring, so containment between them survives placement.

use vstd::prelude::*;
use crate::vec3::Vec3i;
use crate::aabb::Aabb;
use crate::ratio::lemma_mul_bound2;
use vstd::arithmetic::div_mod::lemma_div_is_ordered;
use vstd::arithmetic::div_mod::lemma_hoist_over_denominator;
use vstd::arithmetic::div_mod::lemma_div_multiples_vanish;
use vstd::arithmetic::mul::lemma_mul_inequality;

verus! {

/// Translation and scale, both fixed-point; scale components are positive.
#[derive(Clone, Copy, PartialEq, Eq, Structural, Debug)]
pub struct Placement {
    pub translation: Vec3i,
    pub scale: Vec3i,
}

/// One placed coordinate: `v * s / SCALE + t`, with flooring division.
pub open spec fn place_coord(v: int, s: int, t: int) -> int {
    (v * s) / (crate::SCALE as int) + t
}

impl Placement {
    pub open spec fn wf(self) -> bool {
        &&& self.translation.bounded(crate::MAX_COORD as int)
        &&& 1 <= self.scale.x <= crate::MAX_SCALE
        &&& 1 <= self.scale.y <= crate::MAX_SCALE
        &&& 1 <= self.scale.z <= crate::MAX_SCALE
    }

    /// The placed image of a point, componentwise.
    pub open spec fn places_point(self, v: Vec3i, r: Vec3i) -> bool {
        &&& r.x == place_coord(v.x as int, self.scale.x as int, self.translation.x as int)
        &&& r.y == place_coord(v.y as int, self.scale.y as int, self.translation.y as int)
        &&& r.z == place_coord(v.z as int, self.scale.z as int, self.translation.z as int)
    }

    /// The placed image of a box: both corners placed.
    pub open spec fn places_box(self, b: Aabb, r: Aabb) -> bool {
        self.places_point(b.min, r.min) && self.places_point(b.max, r.max)
    }

    /// The identity placement (scale 1.0, no translation).
    pub fn identity() -> (r: Placement)
        ensures
            r.wf(),
            r.scale == (Vec3i { x: crate::SCALE, y: crate::SCALE, z: crate::SCALE }),
            r.translation == (Vec3i { x: 0i64, y: 0i64, z: 0i64 }),
    {
        Placement {
            translation: Vec3i { x: 0, y: 0, z: 0 },
            scale: Vec3i { x: crate::SCALE, y: crate::SCALE, z: crate::SCALE },
        }
    }

    pub fn place_point(&self, v: &Vec3i) -> (r: Vec3i)
        requires
            self.wf(),
            v.bounded(crate::MAX_COORD as int),
        ensures
            self.places_point(*v, r),
            r.bounded(crate::MAX_PLACED as int),
    {
        Vec3i {
            x: place_coord_exec(v.x, self.scale.x, self.translation.x),
            y: place_coord_exec(v.y, self.scale.y, self.translation.y),
            z: place_coord_exec(v.z, self.scale.z, self.translation.z),
        }
    }

    pub fn place_box(&self, b: &Aabb) -> (r: Aabb)
        requires
            self.wf(),
            b.wf(),
            b.bounded(crate::MAX_COORD as int),
        ensures
            self.places_box(*b, r),
            r.wf(),
            r.bounded(crate::MAX_PLACED as int),
    {
        let r = Aabb { min: self.place_point(&b.min), max: self.place_point(&b.max) };
        proof {
            lemma_place_coord_monotone(
                b.min.x as int, b.max.x as int, self.scale.x as int, self.translation.x as int);
            lemma_place_coord_monotone(
                b.min.y as int, b.max.y as int, self.scale.y as int, self.translation.y as int);
            lemma_place_coord_monotone(
                b.min.z as int, b.max.z as int, self.scale.z as int, self.translation.z as int);
        }
        r
    }
}

fn place_coord_exec(v: i64, s: i64, t: i64) -> (r: i64)
    requires
        -crate::MAX_COORD <= v <= crate::MAX_COORD,
        1 <= s <= crate::MAX_SCALE,
        -crate::MAX_COORD <= t <= crate::MAX_COORD,
    ensures
        r == place_coord(v as int, s as int, t as int),
        -crate::MAX_PLACED <= r <= crate::MAX_PLACED,
{
    proof {
        lemma_mul_bound2(v as int, s as int, crate::MAX_COORD as int, crate::MAX_SCALE as int);
    }
    let p: i64 = v * s;
    let shifted: u64 = (p + 1073741824) as u64;
    let q: i64 = (shifted / 1024) as i64 - 1048576 + t;
    proof {
        lemma_hoist_over_denominator(p as int, 1048576, 1024nat);
        lemma_div_is_ordered(-268435456, p as int, 1024);
        lemma_div_is_ordered(p as int, 268435456, 1024);
    }
    q
}

/// Placing is monotone in the coordinate (the scale is positive and the
/// flooring division keeps order), so placed boxes stay well formed and
/// containment survives placement.
pub proof fn lemma_place_coord_monotone(v1: int, v2: int, s: int, t: int)
    requires
        v1 <= v2,
        s >= 1,
    ensures
        place_coord(v1, s, t) <= place_coord(v2, s, t),
{
    lemma_mul_inequality(v1, v2, s);
    lemma_div_is_ordered(v1 * s, v2 * s, crate::SCALE as int);
}

} // verus!
