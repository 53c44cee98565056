//! The scene: a camera and an ordered collection of spheres, and the search
//! for the closest hit among them.

use vstd::prelude::*;
use crate::point::Point;
use crate::fixed::SCALE;
use crate::ray::Ray;
use crate::hit_record::HitRecord;
use crate::sphere::{Sphere, Hittable, sphere_hit, hit_t, record_at, lemma_hit_narrowed};

verus! {

/// A pinhole camera: the eye point and the viewport's lower-left corner
/// and spanning edges.
#[derive(Clone, Copy, Debug, PartialEq, Eq, Structural)]
pub struct Camera {
    pub origin: Point,
    pub lower_left: Point,
    pub horizontal: Point,
    pub vertical: Point,
}

/// An image size, a camera and the spheres to render.
#[derive(Debug)]
pub struct Scene {
    pub width: u32,
    pub height: u32,
    pub camera: Camera,
    pub objects: Vec<Sphere>,
}

/// Every sphere of the collection is well formed.
pub open spec fn all_wf(objects: Seq<Sphere>) -> bool {
    forall|i: int| 0 <= i < objects.len() ==> #[trigger] objects[i].wf()
}

/// The upper bound of the search once `best` has been found.
pub open spec fn bound_after(best: Option<HitRecord>, t_max: int) -> int {
    match best {
        Some(h) => h.t as int,
        None => t_max,
    }
}

/// The result of the search over the first `n` objects: each object is
/// tried against the interval narrowed to the closest hit found so far, and
/// a hit replaces the one before it.
pub open spec fn closest_prefix(
    objects: Seq<Sphere>,
    n: int,
    ray: Ray,
    t_min: int,
    t_max: int,
) -> Option<HitRecord>
    decreases n,
{
    if n <= 0 {
        None
    } else {
        let prev = closest_prefix(objects, n - 1, ray, t_min, t_max);
        match sphere_hit(objects[n - 1], ray, t_min, bound_after(prev, t_max)) {
            Some(h) => Some(h),
            None => prev,
        }
    }
}

/// The closest hit among all the objects.
pub open spec fn closest_spec(objects: Seq<Sphere>, ray: Ray, t_min: int, t_max: int) -> Option<
    HitRecord,
> {
    closest_prefix(objects, objects.len() as int, ray, t_min, t_max)
}

/// The closest hit of `ray` among `objects` with parameter in `[t_min, t_max]`.
pub fn closest_hit(ray: &Ray, t_min: i64, t_max: i64, objects: &[Sphere]) -> (r: Option<HitRecord>)
    requires
        ray.in_range(),
        all_wf(objects@),
    ensures
        r == closest_spec(objects@, *ray, t_min as int, t_max as int),
{
    let mut best: Option<HitRecord> = None;
    let mut closest: i64 = t_max;
    let mut i: usize = 0;
    while i < objects.len()
        invariant
            0 <= i <= objects.len(),
            ray.in_range(),
            all_wf(objects@),
            best == closest_prefix(objects@, i as int, *ray, t_min as int, t_max as int),
            closest as int == bound_after(best, t_max as int),
        decreases objects.len() - i,
    {
        let obj = &objects[i];
        assert(obj.wf());
        match obj.hit(ray, t_min, closest) {
            Some(h) => {
                closest = h.t;
                best = Some(h);
            },
            None => {},
        }
        i = i + 1;
    }
    best
}

/// What the search over the first `n` objects has found: nothing exactly
/// when none of them is hit within `[t_min, t_max]`; otherwise a record of
/// one of them, at its own nearest hit, no farther than any other's.
pub open spec fn nearest_among(
    objects: Seq<Sphere>,
    n: int,
    ray: Ray,
    t_min: int,
    t_max: int,
    found: Option<HitRecord>,
) -> bool {
    &&& (found is None <==> forall|i: int|
        0 <= i < n ==> (#[trigger] hit_t(objects[i], ray, t_min, t_max)) is None)
    &&& (found matches Some(h) ==> {
        &&& t_min <= h.t <= t_max
        &&& forall|i: int|
            0 <= i < n && (#[trigger] hit_t(objects[i], ray, t_min, t_max)) is Some ==> h.t
                <= hit_t(objects[i], ray, t_min, t_max)->Some_0
        &&& exists|i: int|
            0 <= i < n && #[trigger] hit_t(objects[i], ray, t_min, t_max) == Some(h.t as int) && h
                == record_at(objects[i], ray, h.t as int)
    })
}

proof fn lemma_prefix_nearest(objects: Seq<Sphere>, n: int, ray: Ray, t_min: int, t_max: int)
    requires
        0 <= n <= objects.len(),
        i64::MIN <= t_min,
        t_max <= i64::MAX,
    ensures
        nearest_among(objects, n, ray, t_min, t_max, closest_prefix(objects, n, ray, t_min, t_max)),
    decreases n,
{
    if n > 0 {
        lemma_prefix_nearest(objects, n - 1, ray, t_min, t_max);
        let prev = closest_prefix(objects, n - 1, ray, t_min, t_max);
        let b = bound_after(prev, t_max);
        let s = objects[n - 1];
        lemma_hit_narrowed(s, ray, t_min, b, t_max);
        match hit_t(s, ray, t_min, b) {
            Some(t) => {
                let h = record_at(s, ray, t);
                assert(h.t as int == t);
                assert(hit_t(objects[n - 1], ray, t_min, t_max) == Some(h.t as int));
                assert forall|i: int|
                    0 <= i < n && (#[trigger] hit_t(objects[i], ray, t_min, t_max)) is Some implies h.t
                        <= hit_t(objects[i], ray, t_min, t_max)->Some_0 by {
                    if i < n - 1 {
                        assert(hit_t(objects[i], ray, t_min, t_max) is Some);
                    }
                }
            },
            None => {
                if hit_t(s, ray, t_min, t_max) is Some {
                    assert(prev is Some);
                }
                assert forall|i: int|
                    0 <= i < n && (#[trigger] hit_t(objects[i], ray, t_min, t_max)) is Some implies prev->Some_0.t
                        <= hit_t(objects[i], ray, t_min, t_max)->Some_0 by {
                    if i < n - 1 {
                        assert(hit_t(objects[i], ray, t_min, t_max) is Some);
                    }
                }
                if prev is Some {
                    let i = choose|i: int|
                        0 <= i < n - 1 && #[trigger] hit_t(objects[i], ray, t_min, t_max) == Some(
                            prev->Some_0.t as int,
                        ) && prev->Some_0 == record_at(objects[i], ray, prev->Some_0.t as int);
                    assert(hit_t(objects[i], ray, t_min, t_max) == Some(prev->Some_0.t as int));
                }
            },
        }
    }
}

/// The closest-hit search returns nothing exactly when no object is hit
/// within `[t_min, t_max]`; otherwise it returns the record of an object at
/// that object's own nearest hit, and no other object is hit nearer. Which
/// of two objects hit at the same parameter wins is left open.
pub proof fn lemma_closest_is_nearest(objects: Seq<Sphere>, ray: Ray, t_min: int, t_max: int)
    requires
        i64::MIN <= t_min,
        t_max <= i64::MAX,
    ensures
        nearest_among(
            objects,
            objects.len() as int,
            ray,
            t_min,
            t_max,
            closest_spec(objects, ray, t_min, t_max),
        ),
{
    lemma_prefix_nearest(objects, objects.len() as int, ray, t_min, t_max);
}

/// A ray from outside a sphere, with a unit direction aimed straight at its
/// center at distance `l`, is reported by the closest-hit search over
/// `[0, i64::MAX]` at `t = l - r`.
pub proof fn lemma_head_on_closest_hit(s: Sphere, ray: Ray, l: int)
    requires
        s.wf(),
        ray.in_range(),
        crate::sphere::quad_a(ray) == SCALE * SCALE,
        crate::sphere::half_b(s, ray) == -(l * SCALE),
        crate::sphere::center_distance_sq(s, ray) == l * l,
        l > s.radius,
    ensures
        closest_spec(seq![s], ray, 0, i64::MAX as int) matches Some(h) && h.t == l - s.radius,
{
    assert(l * l <= 12 * 0x1000_0000_0000_0000) by (nonlinear_arith)
        requires
            l * l == crate::sphere::center_distance_sq(s, ray),
            s.wf(),
            ray.in_range(),
    {
        crate::sphere::lemma_center_distance_bound(s, ray);
    }
    crate::fixed::lemma_square_le(l, 0x1_0000_0000);
    crate::sphere::lemma_head_on_root(s, ray, l, i64::MAX as int);
    let sq = seq![s];
    assert(sq[0] == s);
    assert(closest_prefix(sq, 0, ray, 0, i64::MAX as int) is None);
    assert(closest_spec(sq, ray, 0, i64::MAX as int) == Some(record_at(s, ray, l - s.radius)));
}

} // verus!
