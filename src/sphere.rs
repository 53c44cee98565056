//! Spheres and the ray-sphere intersection.

use vstd::prelude::*;
use crate::fixed::{SCALE, COORD_MAX, tdiv, isqrt, is_isqrt, div_trunc, sqrt_floor};
use crate::point::{Point, within, abs};
use crate::ray::{Ray, at_coord, REACH_MAX};
use crate::hit_record::{HitRecord, faces_front};

verus! {

/// A sphere: a center and a positive radius.
#[derive(Clone, Copy, Debug, PartialEq, Eq, Structural)]
pub struct Sphere {
    pub center: Point,
    pub radius: i64,
}

/// `dot(D, D)` for the ray's direction `D` (scale `SCALE^2`).
pub open spec fn quad_a(ray: Ray) -> int {
    crate::point::dot_raw(ray.direction, ray.direction)
}

/// `dot(O - C, D)`.
pub open spec fn half_b(s: Sphere, ray: Ray) -> int {
    (ray.start.x - s.center.x) * ray.direction.x + (ray.start.y - s.center.y) * ray.direction.y + (
    ray.start.z - s.center.z) * ray.direction.z
}

/// `dot(O - C, O - C) - r^2`.
pub open spec fn quad_c(s: Sphere, ray: Ray) -> int {
    (ray.start.x - s.center.x) * (ray.start.x - s.center.x) + (ray.start.y - s.center.y) * (
    ray.start.y - s.center.y) + (ray.start.z - s.center.z) * (ray.start.z - s.center.z) - s.radius
        * s.radius
}

/// `half_b^2 - a * c`, exactly (scale `SCALE^4`).
pub open spec fn discriminant_raw(s: Sphere, ray: Ray) -> int {
    half_b(s, ray) * half_b(s, ray) - quad_a(ray) * quad_c(s, ray)
}

/// The discriminant as a fixed-point number.
pub open spec fn discriminant_spec(s: Sphere, ray: Ray) -> int {
    tdiv(discriminant_raw(s, ray), SCALE * SCALE * SCALE)
}

/// The nearer root `(-half_b - sqrt(disc)) / a`.
pub open spec fn near_root(s: Sphere, ray: Ray) -> int {
    tdiv(SCALE * (-half_b(s, ray) - isqrt(discriminant_raw(s, ray))), quad_a(ray))
}

/// The farther root `(-half_b + sqrt(disc)) / a`.
pub open spec fn far_root(s: Sphere, ray: Ray) -> int {
    tdiv(SCALE * (-half_b(s, ray) + isqrt(discriminant_raw(s, ray))), quad_a(ray))
}

pub open spec fn in_interval(t: int, t_min: int, t_max: int) -> bool {
    t_min <= t <= t_max
}

/// The parameter of the nearest intersection within `[t_min, t_max]`: the
/// nearer root if it lies there, else the farther one if it does.
pub open spec fn hit_t(s: Sphere, ray: Ray, t_min: int, t_max: int) -> Option<int> {
    if quad_a(ray) == 0 || discriminant_raw(s, ray) < 0 {
        None
    } else if in_interval(near_root(s, ray), t_min, t_max) {
        Some(near_root(s, ray))
    } else if in_interval(far_root(s, ray), t_min, t_max) {
        Some(far_root(s, ray))
    } else {
        None
    }
}

/// One coordinate of the outward normal `(p - c) / r`.
pub open spec fn outward_coord(p: int, c: int, r: int) -> int {
    tdiv((p - c) * SCALE, r)
}

/// The point at parameter `t` along the ray.
pub open spec fn at_point(ray: Ray, t: int) -> Point {
    Point {
        x: at_coord(ray.start.x as int, ray.direction.x as int, t) as i64,
        y: at_coord(ray.start.y as int, ray.direction.y as int, t) as i64,
        z: at_coord(ray.start.z as int, ray.direction.z as int, t) as i64,
    }
}

/// The outward unit normal of the sphere at `p`.
pub open spec fn outward_at(s: Sphere, p: Point) -> Point {
    Point {
        x: outward_coord(p.x as int, s.center.x as int, s.radius as int) as i64,
        y: outward_coord(p.y as int, s.center.y as int, s.radius as int) as i64,
        z: outward_coord(p.z as int, s.center.z as int, s.radius as int) as i64,
    }
}

/// The record of the sphere hit at parameter `t`.
pub open spec fn record_at(s: Sphere, ray: Ray, t: int) -> HitRecord {
    let p = at_point(ray, t);
    let n = outward_at(s, p);
    let front = faces_front(ray, n);
    HitRecord {
        p,
        normal: if front {
            n
        } else {
            Point { x: -n.x as i64, y: -n.y as i64, z: -n.z as i64 }
        },
        t: t as i64,
        is_front_face: front,
    }
}

/// What a sphere reports for a ray and an interval.
pub open spec fn sphere_hit(s: Sphere, ray: Ray, t_min: int, t_max: int) -> Option<HitRecord> {
    match hit_t(s, ray, t_min, t_max) {
        Some(t) => Some(record_at(s, ray, t)),
        None => None,
    }
}

/// Something a ray can be tested against.
pub trait Hittable {
    /// The object and the ray are within the ranges the computation handles.
    spec fn accepts(&self, ray: Ray) -> bool;

    /// The intersection the object reports within `[t_min, t_max]`.
    spec fn hit_model(&self, ray: Ray, t_min: int, t_max: int) -> Option<HitRecord>;

    /// The discriminant of the intersection equation.
    spec fn discriminant_model(&self, ray: Ray) -> int;

    fn get_discriminant(&self, ray: &Ray) -> (r: i128)
        requires
            self.accepts(*ray),
        ensures
            r == self.discriminant_model(*ray),
    ;

    /// The nearest intersection with parameter in `[t_min, t_max]`, if any.
    fn hit(&self, ray: &Ray, t_min: i64, t_max: i64) -> (r: Option<HitRecord>)
        requires
            self.accepts(*ray),
        ensures
            r == self.hit_model(*ray, t_min as int, t_max as int),
    ;
}

impl Sphere {
    /// The center is in range and the radius positive and in range.
    pub open spec fn wf(self) -> bool {
        self.center.in_range() && 0 < self.radius <= COORD_MAX
    }

    pub fn new(center: Point, radius: i64) -> (r: Sphere)
        ensures
            r.center == center && r.radius == radius,
    {
        Sphere { center, radius }
    }
}

impl Hittable for Sphere {
    open spec fn accepts(&self, ray: Ray) -> bool {
        self.wf() && ray.in_range()
    }

    open spec fn hit_model(&self, ray: Ray, t_min: int, t_max: int) -> Option<HitRecord> {
        sphere_hit(*self, ray, t_min, t_max)
    }

    open spec fn discriminant_model(&self, ray: Ray) -> int {
        discriminant_spec(*self, ray)
    }

    fn get_discriminant(&self, ray: &Ray) -> (r: i128) {
        let q = quadratic(self, ray);
        let disc = q.3;
        proof {
            crate::point::lemma_tdiv_shrinks(disc as int, SCALE * SCALE * SCALE);
        }
        div_trunc(disc, (SCALE as i128) * (SCALE as i128) * (SCALE as i128))
    }

    fn hit(&self, ray: &Ray, t_min: i64, t_max: i64) -> (r: Option<HitRecord>) {
        let (a, hb, cc, disc) = quadratic(self, ray);
        if a == 0 || disc < 0 {
            return None;
        }
        let sq_u = sqrt_floor(disc as u128);
        proof {
            crate::fixed::lemma_square_le(sq_u as int, 0x8000_0000_0000_0000);
        }
        let sq = sq_u as i128;
        let s = SCALE as i128;
        let near = div_trunc(s * (-hb - sq), a);
        let t: i64;
        if t_min as i128 <= near && near <= t_max as i128 {
            t = near as i64;
            proof {
                lemma_root_reach(*self, *ray, sq as int, -1);
            }
        } else {
            let far = div_trunc(s * (-hb + sq), a);
            if t_min as i128 <= far && far <= t_max as i128 {
                t = far as i64;
                proof {
                    lemma_root_reach(*self, *ray, sq as int, 1);
                }
            } else {
                return None;
            }
        }
        let p = ray.point_at_parameter(t);
        let n = Point {
            x: outward(p.x, self.center.x, self.radius),
            y: outward(p.y, self.center.y, self.radius),
            z: outward(p.z, self.center.z, self.radius),
        };
        let mut rec = HitRecord { p, normal: n, t, is_front_face: false };
        rec.set_face_normal(ray, n);
        Some(rec)
    }
}

/// One coordinate of the outward normal at a hit point.
fn outward(p: i64, c: i64, r: i64) -> (n: i64)
    requires
        within(p as int, 8 * COORD_MAX),
        within(c as int, COORD_MAX as int),
        0 < r,
    ensures
        n == outward_coord(p as int, c as int, r as int),
        within(n as int, 0x4000_0000_0000_0000),
{
    let num = ((p - c) as i128) * (SCALE as i128);
    assert(within(num as int, 9 * 0x4000_0000 * 65536int)) by (nonlinear_arith)
        requires
            num == (p - c) * 65536,
            within(p - c, 9 * 0x4000_0000int),
    ;
    let q = div_trunc(num, r as i128);
    proof {
        crate::point::lemma_tdiv_shrinks(num as int, r as int);
    }
    q as i64
}

/// The terms `(a, half_b, c, discriminant)` of the intersection equation.
fn quadratic(s: &Sphere, ray: &Ray) -> (r: (i128, i128, i128, i128))
    requires
        s.wf(),
        ray.in_range(),
    ensures
        r.0 == quad_a(*ray),
        r.1 == half_b(*s, *ray),
        r.2 == quad_c(*s, *ray),
        r.3 == discriminant_raw(*s, *ray),
        0 <= r.0 <= 3 * 0x1000_0000_0000_0000,
        within(r.1 as int, 3 * 0x2000_0000_0000_0000int),
        -0x1000_0000_0000_0000 <= r.2 <= 3 * 0x4000_0000_0000_0000,
        r.3 < 0x4000_0000_0000_0000_0000_0000_0000_0000,
        r.3 > i128::MIN,
{
    let ox = (ray.start.x as i128) - (s.center.x as i128);
    let oy = (ray.start.y as i128) - (s.center.y as i128);
    let oz = (ray.start.z as i128) - (s.center.z as i128);
    let dx = ray.direction.x as i128;
    let dy = ray.direction.y as i128;
    let dz = ray.direction.z as i128;
    let rr = s.radius as i128;
    proof {
        lemma_terms_bounds(ox as int, oy as int, oz as int, dx as int, dy as int, dz as int, rr as int);
    }
    let a = dx * dx + dy * dy + dz * dz;
    let hb = ox * dx + oy * dy + oz * dz;
    let cc = ox * ox + oy * oy + oz * oz - rr * rr;
    proof {
        lemma_disc_bounds(a as int, hb as int, cc as int);
    }
    let disc = hb * hb - a * cc;
    (a, hb, cc, disc)
}

proof fn lemma_terms_bounds(ox: int, oy: int, oz: int, dx: int, dy: int, dz: int, r: int)
    requires
        within(ox, 2 * 0x4000_0000int),
        within(oy, 2 * 0x4000_0000int),
        within(oz, 2 * 0x4000_0000int),
        within(dx, 0x4000_0000),
        within(dy, 0x4000_0000),
        within(dz, 0x4000_0000),
        0 < r <= 0x4000_0000,
    ensures
        0 <= dx * dx <= 0x1000_0000_0000_0000,
        0 <= dy * dy <= 0x1000_0000_0000_0000,
        0 <= dz * dz <= 0x1000_0000_0000_0000,
        within(ox * dx, 0x2000_0000_0000_0000),
        within(oy * dy, 0x2000_0000_0000_0000),
        within(oz * dz, 0x2000_0000_0000_0000),
        0 <= ox * ox <= 0x4000_0000_0000_0000,
        0 <= oy * oy <= 0x4000_0000_0000_0000,
        0 <= oz * oz <= 0x4000_0000_0000_0000,
        0 < r * r <= 0x1000_0000_0000_0000,
        0 <= dx * dx + dy * dy + dz * dz <= 3 * 0x1000_0000_0000_0000,
        within(ox * dx + oy * dy + oz * dz, 3 * 0x2000_0000_0000_0000int),
        -0x1000_0000_0000_0000 <= ox * ox + oy * oy + oz * oz - r * r <= 3 * 0x4000_0000_0000_0000,
{
    assert(0 <= dx * dx <= 0x1000_0000_0000_0000) by (nonlinear_arith)
        requires
            within(dx, 0x4000_0000),
    ;
    assert(0 <= dy * dy <= 0x1000_0000_0000_0000) by (nonlinear_arith)
        requires
            within(dy, 0x4000_0000),
    ;
    assert(0 <= dz * dz <= 0x1000_0000_0000_0000) by (nonlinear_arith)
        requires
            within(dz, 0x4000_0000),
    ;
    assert(within(ox * dx, 0x2000_0000_0000_0000)) by (nonlinear_arith)
        requires
            within(ox, 2 * 0x4000_0000int),
            within(dx, 0x4000_0000),
    ;
    assert(within(oy * dy, 0x2000_0000_0000_0000)) by (nonlinear_arith)
        requires
            within(oy, 2 * 0x4000_0000int),
            within(dy, 0x4000_0000),
    ;
    assert(within(oz * dz, 0x2000_0000_0000_0000)) by (nonlinear_arith)
        requires
            within(oz, 2 * 0x4000_0000int),
            within(dz, 0x4000_0000),
    ;
    assert(0 <= ox * ox <= 0x4000_0000_0000_0000) by (nonlinear_arith)
        requires
            within(ox, 2 * 0x4000_0000int),
    ;
    assert(0 <= oy * oy <= 0x4000_0000_0000_0000) by (nonlinear_arith)
        requires
            within(oy, 2 * 0x4000_0000int),
    ;
    assert(0 <= oz * oz <= 0x4000_0000_0000_0000) by (nonlinear_arith)
        requires
            within(oz, 2 * 0x4000_0000int),
    ;
    assert(0 < r * r <= 0x1000_0000_0000_0000) by (nonlinear_arith)
        requires
            0 < r <= 0x4000_0000,
    ;
}

proof fn lemma_disc_bounds(a: int, hb: int, cc: int)
    requires
        0 <= a <= 3 * 0x1000_0000_0000_0000,
        within(hb, 3 * 0x2000_0000_0000_0000int),
        -0x1000_0000_0000_0000 <= cc <= 3 * 0x4000_0000_0000_0000,
    ensures
        0 <= hb * hb <= 9 * 0x400_0000_0000_0000_0000_0000_0000_0000,
        within(a * cc, 9 * 0x400_0000_0000_0000_0000_0000_0000_0000int),
        a * cc >= -3 * 0x100_0000_0000_0000_0000_0000_0000_0000,
        hb * hb - a * cc < 0x4000_0000_0000_0000_0000_0000_0000_0000,
        hb * hb - a * cc > -0x4000_0000_0000_0000_0000_0000_0000_0000,
{
    assert(0 <= hb * hb <= 9 * 0x400_0000_0000_0000_0000_0000_0000_0000) by (nonlinear_arith)
        requires
            within(hb, 3 * 0x2000_0000_0000_0000int),
    ;
    assert(within(a * cc, 9 * 0x400_0000_0000_0000_0000_0000_0000_0000int)) by (nonlinear_arith)
        requires
            0 <= a <= 3 * 0x1000_0000_0000_0000,
            -0x1000_0000_0000_0000 <= cc <= 3 * 0x4000_0000_0000_0000,
    ;
    assert(a * cc >= -3 * 0x100_0000_0000_0000_0000_0000_0000_0000) by (nonlinear_arith)
        requires
            0 <= a <= 3 * 0x1000_0000_0000_0000,
            -0x1000_0000_0000_0000 <= cc,
    ;
}

/// `|O - C|^2`: the squared distance from the sphere's center to the ray's origin.
pub open spec fn center_distance_sq(s: Sphere, ray: Ray) -> int {
    quad_c(s, ray) + s.radius * s.radius
}

/// The nearer root never lies beyond the farther one.
pub proof fn lemma_roots_ordered(s: Sphere, ray: Ray)
    requires
        quad_a(ray) > 0,
        discriminant_raw(s, ray) >= 0,
    ensures
        near_root(s, ray) <= far_root(s, ray),
{
    let d = discriminant_raw(s, ray);
    crate::fixed::lemma_isqrt_exists(d);
    let hb = half_b(s, ray);
    let sq = isqrt(d);
    assert(SCALE * (-hb - sq) <= SCALE * (-hb + sq)) by (nonlinear_arith)
        requires
            sq >= 0,
    ;
    crate::fixed::lemma_tdiv_monotone(SCALE * (-hb - sq), SCALE * (-hb + sq), quad_a(ray));
}

/// Narrowing the interval's upper end to `b` keeps every hit at or below
/// `b`, and finds nothing new.
pub proof fn lemma_hit_narrowed(s: Sphere, ray: Ray, t_min: int, b: int, t_max: int)
    requires
        b <= t_max,
    ensures
        hit_t(s, ray, t_min, b) matches Some(t) ==> hit_t(s, ray, t_min, t_max) == Some(t),
        hit_t(s, ray, t_min, t_max) matches Some(t) ==> (t <= b ==> hit_t(s, ray, t_min, b) == Some(
            t,
        )),
{
    if quad_a(ray) != 0 && discriminant_raw(s, ray) >= 0 {
        assert(quad_a(ray) >= 0) by (nonlinear_arith)
            requires
                quad_a(ray) == ray.direction.x * ray.direction.x + ray.direction.y
                    * ray.direction.y + ray.direction.z * ray.direction.z,
        ;
        lemma_roots_ordered(s, ray);
        let near = near_root(s, ray);
        let far = far_root(s, ray);
        assert(near <= far);
    }
}

/// A tangent ray (discriminant exactly zero) has a single root: both
/// candidates coincide, and it is reported exactly when it lies in the
/// interval.
pub proof fn lemma_tangent_single_root(s: Sphere, ray: Ray, t_min: int, t_max: int)
    requires
        quad_a(ray) > 0,
        discriminant_raw(s, ray) == 0,
    ensures
        near_root(s, ray) == far_root(s, ray),
        hit_t(s, ray, t_min, t_max) == (if in_interval(near_root(s, ray), t_min, t_max) {
            Some(near_root(s, ray))
        } else {
            None
        }),
{
    assert(is_isqrt(0, 0));
    crate::fixed::lemma_isqrt_is(0, 0);
}

/// A ray whose line passes the center at a distance greater than the radius
/// never hits the sphere, whatever the interval. With `D` the direction, the
/// squared distance of the line from the center times `|D|^2` is
/// `|O - C|^2 |D|^2 - ((O - C) . D)^2`.
pub proof fn lemma_miss_when_far(s: Sphere, ray: Ray, t_min: int, t_max: int)
    requires
        quad_a(ray) * center_distance_sq(s, ray) - half_b(s, ray) * half_b(s, ray) > s.radius
            * s.radius * quad_a(ray),
    ensures
        hit_t(s, ray, t_min, t_max) is None,
        sphere_hit(s, ray, t_min, t_max) is None,
{
    let a = quad_a(ray);
    let r2 = s.radius * s.radius;
    assert(a * quad_c(s, ray) == a * center_distance_sq(s, ray) - r2 * a) by (nonlinear_arith)
        requires
            quad_c(s, ray) == center_distance_sq(s, ray) - r2,
    ;
}

/// A ray from outside the sphere with a unit direction aimed straight at
/// the center, at distance `l`, first meets the surface at `t = l - r`.
/// The direction is a unit vector when `D . D == SCALE^2`; it points at the
/// center when `(C - O) . D == l * SCALE` with `l^2 == |C - O|^2`.
pub proof fn lemma_head_on_root(s: Sphere, ray: Ray, l: int, t_max: int)
    requires
        s.wf(),
        ray.in_range(),
        quad_a(ray) == SCALE * SCALE,
        half_b(s, ray) == -(l * SCALE),
        center_distance_sq(s, ray) == l * l,
        l > s.radius,
        l - s.radius <= t_max,
    ensures
        hit_t(s, ray, 0, t_max) == Some(l - s.radius),
{
    let r = s.radius as int;
    let sc = SCALE as int;
    let a = sc * sc;
    assert(discriminant_raw(s, ray) == (r * sc) * (r * sc)) by (nonlinear_arith)
        requires
            discriminant_raw(s, ray) == half_b(s, ray) * half_b(s, ray) - quad_a(ray) * quad_c(
                s,
                ray,
            ),
            half_b(s, ray) == -(l * sc),
            quad_c(s, ray) == l * l - r * r,
            quad_a(ray) == sc * sc,
    ;
    assert(is_isqrt((r * sc) * (r * sc), r * sc)) by (nonlinear_arith)
        requires
            r > 0,
            sc > 0,
    ;
    crate::fixed::lemma_isqrt_is(discriminant_raw(s, ray), r * sc);
    assert(sc * (-half_b(s, ray) - r * sc) == (l - r) * a) by (nonlinear_arith)
        requires
            half_b(s, ray) == -(l * sc),
            a == sc * sc,
    ;
    assert(((l - r) * a) / a == l - r) by (nonlinear_arith)
        requires
            a > 0,
    ;
    assert(near_root(s, ray) == l - r);
}

/// `|O - C|^2` is at most `12 * COORD_MAX^2` for a sphere and ray in range.
pub proof fn lemma_center_distance_bound(s: Sphere, ray: Ray)
    requires
        s.wf(),
        ray.in_range(),
    ensures
        0 <= center_distance_sq(s, ray) <= 12 * 0x1000_0000_0000_0000,
{
    let ox = ray.start.x - s.center.x;
    let oy = ray.start.y - s.center.y;
    let oz = ray.start.z - s.center.z;
    assert(0 <= ox * ox + oy * oy + oz * oz <= 12 * 0x1000_0000_0000_0000) by (nonlinear_arith)
        requires
            within(ox, 2 * 0x4000_0000int),
            within(oy, 2 * 0x4000_0000int),
            within(oz, 2 * 0x4000_0000int),
    ;
}

/// A root's offset along the direction stays within `REACH_MAX` on every axis.
proof fn lemma_root_reach(s: Sphere, ray: Ray, sq: int, sign: int)
    requires
        s.wf(),
        ray.in_range(),
        quad_a(ray) > 0,
        discriminant_raw(s, ray) >= 0,
        is_isqrt(discriminant_raw(s, ray), sq),
        sign == 1 || sign == -1,
    ensures
        ray.reaches(tdiv(SCALE * (-half_b(s, ray) + sign * sq), quad_a(ray))),
{
    let ox = ray.start.x - s.center.x;
    let oy = ray.start.y - s.center.y;
    let oz = ray.start.z - s.center.z;
    let dx = ray.direction.x as int;
    let dy = ray.direction.y as int;
    let dz = ray.direction.z as int;
    let a = quad_a(ray);
    let hb = half_b(s, ray);
    let oo = ox * ox + oy * oy + oz * oz;
    let r = s.radius as int;
    lemma_cauchy_schwarz(ox, oy, oz, dx, dy, dz);
    assert(hb * hb <= oo * a);
    assert(sq * sq <= a * (r * r)) by (nonlinear_arith)
        requires
            sq * sq <= hb * hb - a * (oo - r * r),
            hb * hb <= oo * a,
    ;
    assert(0 <= oo <= 12 * 0x1000_0000_0000_0000) by (nonlinear_arith)
        requires
            within(ox, 2 * 0x4000_0000int),
            within(oy, 2 * 0x4000_0000int),
            within(oz, 2 * 0x4000_0000int),
            oo == ox * ox + oy * oy + oz * oz,
    ;
    assert(dx * dx <= a && dy * dy <= a && dz * dz <= a) by (nonlinear_arith)
        requires
            a == dx * dx + dy * dy + dz * dz,
    ;
    let x = -hb + sign * sq;
    if sign == 1 {
        assert(x == -hb + sq);
    } else {
        assert(sign * sq == -sq) by (nonlinear_arith)
            requires
                sign == -1,
        ;
    }
    lemma_axis_reach(dx, a, hb, sq, oo, r, x);
    lemma_axis_reach(dy, a, hb, sq, oo, r, x);
    lemma_axis_reach(dz, a, hb, sq, oo, r, x);
}

/// `dot(u, v)^2 <= dot(u, u) * dot(v, v)`, by Lagrange's identity.
pub proof fn lemma_cauchy_schwarz(ux: int, uy: int, uz: int, vx: int, vy: int, vz: int)
    ensures
        (ux * vx + uy * vy + uz * vz) * (ux * vx + uy * vy + uz * vz) <= (ux * ux + uy * uy + uz
            * uz) * (vx * vx + vy * vy + vz * vz),
{
    let p = ux * vy - uy * vx;
    let q = ux * vz - uz * vx;
    let w = uy * vz - uz * vy;
    let a = ux * ux;
    let b = uy * uy;
    let c = uz * uz;
    let e = vx * vx;
    let f = vy * vy;
    let g = vz * vz;
    assert((a + b + c) * (e + f + g) == a * e + a * f + a * g + b * e + b * f + b * g + c * e + c
        * f + c * g) by (nonlinear_arith);
    let m = ux * vx;
    let n = uy * vy;
    let o = uz * vz;
    assert((m + n + o) * (m + n + o) == m * m + n * n + o * o + 2 * (m * n) + 2 * (m * o) + 2 * (n
        * o)) by (nonlinear_arith);
    assert(m * m == a * e && n * n == b * f && o * o == c * g) by (nonlinear_arith)
        requires
            m == ux * vx,
            n == uy * vy,
            o == uz * vz,
            a == ux * ux,
            b == uy * uy,
            c == uz * uz,
            e == vx * vx,
            f == vy * vy,
            g == vz * vz,
    ;
    lemma_square_of_difference(ux, vy, uy, vx);
    lemma_square_of_difference(ux, vz, uz, vx);
    lemma_square_of_difference(uy, vz, uz, vy);
    assert(p * p >= 0 && q * q >= 0 && w * w >= 0) by (nonlinear_arith);
}

/// `(a*b - c*d)^2 == a^2 b^2 - 2 (a d)(c b) + c^2 d^2`.
proof fn lemma_square_of_difference(a: int, b: int, c: int, d: int)
    ensures
        (a * b - c * d) * (a * b - c * d) == (a * a) * (b * b) - 2 * ((a * d) * (c * b)) + (c * c)
            * (d * d),
{
    let x = a * b;
    let y = c * d;
    assert((x - y) * (x - y) == x * x - 2 * (x * y) + y * y) by (nonlinear_arith);
    assert(x * x == (a * a) * (b * b)) by (nonlinear_arith)
        requires
            x == a * b,
    ;
    assert(y * y == (c * c) * (d * d)) by (nonlinear_arith)
        requires
            y == c * d,
    ;
    assert(x * y == (a * d) * (c * b)) by (nonlinear_arith)
        requires
            x == a * b,
            y == c * d,
    ;
}

/// `y * y <= b * b` with `b >= 0` gives `|y| <= b`.
proof fn lemma_abs_le_of_square(y: int, b: int)
    requires
        b >= 0,
        y * y <= b * b,
    ensures
        abs(y) <= b,
{
    if abs(y) > b {
        assert(abs(y) * abs(y) > b * b) by (nonlinear_arith)
            requires
                abs(y) > b >= 0,
        ;
        assert(abs(y) * abs(y) == y * y) by (nonlinear_arith)
            requires
                abs(y) == y || abs(y) == -y,
        ;
    }
}

/// One axis of the reach bound: `|d * (SCALE * x / a)| <= 7 * COORD_MAX * SCALE`.
proof fn lemma_axis_reach(d: int, a: int, hb: int, sq: int, oo: int, r: int, x: int)
    requires
        a > 0,
        d * d <= a,
        hb * hb <= oo * a,
        0 <= oo <= 12 * 0x1000_0000_0000_0000,
        sq >= 0,
        sq * sq <= a * (r * r),
        0 < r <= 0x4000_0000,
        x == -hb + sq || x == -hb - sq,
    ensures
        within(d * tdiv(SCALE * x, a), REACH_MAX as int),
{
    let b = 0x4000_0000int;
    assert((d * hb) * (d * hb) <= (6 * a * b) * (6 * a * b)) by (nonlinear_arith)
        requires
            d * d <= a,
            hb * hb <= oo * a,
            0 <= oo <= 36 * b * b,
            a > 0,
            b > 0,
    ;
    lemma_abs_le_of_square(d * hb, 6 * a * b);
    assert((d * sq) * (d * sq) <= (a * r) * (a * r)) by (nonlinear_arith)
        requires
            d * d <= a,
            sq * sq <= a * (r * r),
            a > 0,
            sq >= 0,
    ;
    lemma_abs_le_of_square(d * sq, a * r);
    assert(abs(d * x) <= 7 * a * b) by (nonlinear_arith)
        requires
            x == -hb + sq || x == -hb - sq,
            abs(d * hb) <= 6 * a * b,
            abs(d * sq) <= a * r,
            r <= b,
            a > 0,
    ;
    let s = SCALE as int;
    let t = tdiv(s * x, a);
    assert(abs(t) * a <= s * abs(x)) by (nonlinear_arith)
        requires
            t == (if s * x >= 0 { (s * x) / a } else { -((-(s * x)) / a) }),
            a > 0,
            s > 0,
    ;
    assert(abs(d * t) * a <= s * abs(d * x)) by (nonlinear_arith)
        requires
            abs(t) * a <= s * abs(x),
            s > 0,
            a > 0,
    ;
    assert(abs(d * t) <= 7 * b * s) by (nonlinear_arith)
        requires
            abs(d * t) * a <= s * abs(d * x),
            abs(d * x) <= 7 * a * b,
            a > 0,
            s > 0,
    ;
}

} // verus!
