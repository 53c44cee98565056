//! Rays: an origin and a direction, with the point at a parameter along them.

use vstd::prelude::*;
use crate::fixed::{SCALE, COORD_MAX, tdiv, div_trunc};
use crate::point::{Point, within};

verus! {

/// A half-line from `start` along `direction`.
#[derive(Clone, Copy, Debug, PartialEq, Eq, Structural)]
pub struct Ray {
    pub start: Point,
    pub direction: Point,
}

/// One coordinate of `origin + direction * t`.
pub open spec fn at_coord(o: int, d: int, t: int) -> int {
    o + tdiv(d * t, SCALE as int)
}

/// `p` is the point at parameter `t` along `ray`.
pub open spec fn is_at(ray: Ray, t: int, p: Point) -> bool {
    p.x == at_coord(ray.start.x as int, ray.direction.x as int, t) && p.y == at_coord(
        ray.start.y as int,
        ray.direction.y as int,
        t,
    ) && p.z == at_coord(ray.start.z as int, ray.direction.z as int, t)
}

/// Bound on `|direction * t|` under which the point at `t` is representable.
pub const REACH_MAX: i128 = 0x1_C000_0000_0000;

impl Ray {
    pub open spec fn in_range(self) -> bool {
        self.start.in_range() && self.direction.in_range()
    }

    /// Every component of `direction * t` lies within `REACH_MAX`.
    pub open spec fn reaches(self, t: int) -> bool {
        within(self.direction.x * t, REACH_MAX as int) && within(
            self.direction.y * t,
            REACH_MAX as int,
        ) && within(self.direction.z * t, REACH_MAX as int)
    }

    pub fn new(start: Point, direction: Point) -> (r: Ray)
        ensures
            r.start == start && r.direction == direction,
    {
        Ray { start, direction }
    }

    pub fn origin(&self) -> (r: &Point)
        ensures
            *r == self.start,
    {
        &self.start
    }

    pub fn direction(&self) -> (r: &Point)
        ensures
            *r == self.direction,
    {
        &self.direction
    }

    /// The point `origin + direction * t`.
    pub fn point_at_parameter(self, t: i64) -> (r: Point)
        requires
            self.in_range(),
            self.reaches(t as int),
        ensures
            is_at(self, t as int, r),
            within(r.x as int, 8 * COORD_MAX), within(r.y as int, 8 * COORD_MAX), within(r.z as int, 8 * COORD_MAX),
    {
        Point {
            x: coord_at(self.start.x, self.direction.x, t),
            y: coord_at(self.start.y, self.direction.y, t),
            z: coord_at(self.start.z, self.direction.z, t),
        }
    }
}

fn coord_at(o: i64, d: i64, t: i64) -> (r: i64)
    requires
        within(o as int, COORD_MAX as int),
        within(d as int, COORD_MAX as int),
        within(d * t, REACH_MAX as int),
    ensures
        r == at_coord(o as int, d as int, t as int),
        within(r as int, 8 * COORD_MAX),
{
    let q = div_trunc((d as i128) * (t as i128), SCALE as i128);
    proof {
        crate::point::lemma_tdiv_shrinks(d * t, SCALE as int);
        lemma_reach_scaled(d * t);
    }
    o + (q as i64)
}

proof fn lemma_reach_scaled(v: int)
    requires
        within(v, REACH_MAX as int),
    ensures
        within(tdiv(v, SCALE as int), 7 * COORD_MAX),
{
    if v >= 0 {
        assert(v / 65536 <= 7 * 0x4000_0000) by (nonlinear_arith)
            requires
                0 <= v <= 0x1_C000_0000_0000,
        ;
    } else {
        assert((-v) / 65536 <= 7 * 0x4000_0000) by (nonlinear_arith)
            requires
                0 <= -v <= 0x1_C000_0000_0000,
        ;
    }
}

/// The point at parameter zero is the ray's origin.
pub proof fn lemma_at_zero_is_origin(ray: Ray, p: Point)
    requires
        is_at(ray, 0, p),
    ensures
        p == ray.start,
{
    assert(ray.direction.x * 0 == 0 && ray.direction.y * 0 == 0 && ray.direction.z * 0 == 0);
    assert(0int / (SCALE as int) == 0);
}

} // verus!
