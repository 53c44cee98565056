//! The record of a ray striking a surface, and the face-orientation rule.

use vstd::prelude::*;
use crate::point::{Point, dot_raw};
use crate::ray::Ray;

verus! {

/// Where a ray met a surface: the point, the normal facing the ray, the
/// parameter along the ray, and whether the ray came from outside.
#[derive(Clone, Copy, Debug, PartialEq, Eq, Structural)]
pub struct HitRecord {
    pub p: Point,
    pub normal: Point,
    pub t: i64,
    pub is_front_face: bool,
}

/// The ray approaches the surface from the side its outward normal points to.
pub open spec fn faces_front(ray: Ray, outward: Point) -> bool {
    dot_raw(ray.direction, outward) < 0
}

/// `normal` is `outward` when the ray hits the front face, its negation otherwise.
pub open spec fn oriented(ray: Ray, outward: Point, normal: Point) -> bool {
    if faces_front(ray, outward) {
        normal == outward
    } else {
        normal.x == -outward.x && normal.y == -outward.y && normal.z == -outward.z
    }
}

/// The outward normal is small enough for the orientation test.
pub open spec fn normal_in_bounds(n: Point) -> bool {
    crate::point::within(n.x as int, 0x4000_0000_0000_0000) && crate::point::within(
        n.y as int,
        0x4000_0000_0000_0000,
    ) && crate::point::within(n.z as int, 0x4000_0000_0000_0000)
}

impl HitRecord {
    /// Sets the face flag and turns the normal against the incoming ray.
    pub fn set_face_normal(&mut self, ray: &Ray, outward_normal: Point)
        requires
            ray.direction.in_range(),
            normal_in_bounds(outward_normal),
        ensures
            final(self).p == old(self).p,
            final(self).t == old(self).t,
            final(self).is_front_face == faces_front(*ray, outward_normal),
            oriented(*ray, outward_normal, final(self).normal),
    {
        let d = ray.direction;
        let n = outward_normal;
        proof {
            lemma_mixed_product(d.x as int, n.x as int);
            lemma_mixed_product(d.y as int, n.y as int);
            lemma_mixed_product(d.z as int, n.z as int);
        }
        let raw = (d.x as i128) * (n.x as i128) + (d.y as i128) * (n.y as i128) + (d.z as i128)
            * (n.z as i128);
        self.is_front_face = raw < 0;
        self.normal = if self.is_front_face {
            outward_normal
        } else {
            outward_normal.flip()
        };
    }
}

proof fn lemma_mixed_product(a: int, b: int)
    requires
        crate::point::within(a, 0x4000_0000),
        crate::point::within(b, 0x4000_0000_0000_0000),
    ensures
        crate::point::within(a * b, 0x1000_0000_0000_0000_0000_0000),
{
    assert(crate::point::within(a * b, 0x1000_0000_0000_0000_0000_0000)) by (nonlinear_arith)
        requires
            crate::point::within(a, 0x4000_0000),
            crate::point::within(b, 0x4000_0000_0000_0000),
    ;
}

} // verus!
