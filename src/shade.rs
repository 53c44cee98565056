//! Shading: the color seen along a ray, from the normal at its hit or from
//! the background gradient.

use vstd::prelude::*;
use crate::fixed::{SCALE, tdiv, div_trunc};
use crate::point::{unit_component, GeometryError};
use crate::ray::Ray;
use crate::hit_record::HitRecord;
use crate::sphere::{Sphere, Hittable, sphere_hit};
use crate::color::{Color, sat, saturate};

verus! {

/// The sky end of the background gradient: `(0.5, 0.7, 1.0)`.
pub const SKY_R: i64 = 32768;
pub const SKY_G: i64 = 45875;
pub const SKY_B: i64 = 65536;

/// A fixed-point intensity in `[0, 1]` as a channel: `v * 255.99`,
/// truncated and clamped to `[0, 255]`.
pub open spec fn to_channel(v: int) -> int {
    sat(tdiv(v * 25599, 100 * SCALE))
}

/// A normal component in `[-1, 1]` mapped to `(n + 1) / 2` as a channel.
pub open spec fn normal_channel(n: int) -> int {
    to_channel(tdiv(n + SCALE, 2))
}

/// The height of the unit direction of the ray; a zero direction counts as
/// level.
pub open spec fn sky_height(ray: Ray) -> int {
    if ray.direction.is_zero() {
        0
    } else {
        unit_component(ray.direction.y as int, ray.direction)
    }
}

/// Mix of white (weight `1 - t`) and the sky component `k` (weight `t`).
pub open spec fn blend(t: int, k: int) -> int {
    tdiv((SCALE - t) * SCALE + t * k, SCALE as int)
}

/// The background color: white straight down, sky straight up, linear in
/// the height of the direction between.
pub open spec fn background(ray: Ray) -> Color {
    let t = tdiv(sky_height(ray) + SCALE, 2);
    Color {
        r: to_channel(blend(t, SKY_R as int)) as u8,
        g: to_channel(blend(t, SKY_G as int)) as u8,
        b: to_channel(blend(t, SKY_B as int)) as u8,
    }
}

/// The color of the normal at a hit.
pub open spec fn normal_color(h: HitRecord) -> Color {
    Color {
        r: normal_channel(h.normal.x as int) as u8,
        g: normal_channel(h.normal.y as int) as u8,
        b: normal_channel(h.normal.z as int) as u8,
    }
}

/// The color seen along `ray` given the result of its hit query.
pub open spec fn shade_spec(ray: Ray, hit: Option<HitRecord>) -> Color {
    match hit {
        Some(h) => normal_color(h),
        None => background(ray),
    }
}

fn channel_of(v: i128) -> (c: u8)
    requires
        crate::point::within(v as int, 0x1_0000_0000_0000_0000),
    ensures
        c == to_channel(v as int),
{
    saturate(div_trunc(v * 25599, 100 * (SCALE as i128)))
}

fn normal_channel_of(n: i64) -> (c: u8)
    ensures
        c == normal_channel(n as int),
{
    channel_of(div_trunc(n as i128 + SCALE as i128, 2))
}

fn blend_of(t: i128, k: i64) -> (v: i128)
    requires
        0 <= t <= SCALE,
        0 <= k <= SCALE,
    ensures
        v == blend(t as int, k as int),
        0 <= v <= SCALE,
{
    let s = SCALE as i128;
    assert(0 <= (s - t) * s + t * k <= s * s) by (nonlinear_arith)
        requires
            0 <= t <= s,
            0 <= k <= s,
    ;
    let v = div_trunc((s - t) * s + t * (k as i128), s);
    assert(v <= s) by (nonlinear_arith)
        requires
            v == ((s - t) * s + t * k) / (s as int),
            (s - t) * s + t * k <= s * s,
            s > 0,
    ;
    assert(v >= 0) by (nonlinear_arith)
        requires
            v == ((s - t) * s + t * k) / (s as int),
            (s - t) * s + t * k >= 0,
            s > 0,
    ;
    v
}

/// The color seen along `ray`: the normal's color where it hit something,
/// the background gradient where it did not.
pub fn shade(ray: &Ray, hit: &Option<HitRecord>) -> (c: Color)
    requires
        ray.in_range(),
    ensures
        c == shade_spec(*ray, *hit),
{
    match hit {
        Some(h) => Color {
            r: normal_channel_of(h.normal.x),
            g: normal_channel_of(h.normal.y),
            b: normal_channel_of(h.normal.z),
        },
        None => {
            let y: i64 = match ray.direction.unit_vector() {
                Ok(u) => u.y,
                Err(GeometryError::DegenerateVector) => 0,
            };
            let t = div_trunc(y as i128 + SCALE as i128, 2);
            Color {
                r: channel_of(blend_of(t, SKY_R)),
                g: channel_of(blend_of(t, SKY_G)),
                b: channel_of(blend_of(t, SKY_B)),
            }
        },
    }
}

impl Ray {
    /// The color seen along this ray when `sphere` is all there is.
    pub fn color_at_ray(&self, sphere: &Sphere) -> (c: Color)
        requires
            self.in_range(),
            sphere.wf(),
        ensures
            c == shade_spec(*self, sphere_hit(*sphere, *self, 0, i64::MAX as int)),
    {
        let hit = sphere.hit(self, 0, i64::MAX);
        shade(self, &hit)
    }
}

} // verus!
