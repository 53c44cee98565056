use raytracer::fixed::SCALE;
use raytracer::point::Point;
use raytracer::ray::Ray;
use raytracer::scene::closest_hit;
use raytracer::sphere::{Hittable, Sphere};

fn fx(v: f64) -> i64 {
    (v * SCALE as f64) as i64
}

fn p(x: f64, y: f64, z: f64) -> Point {
    Point { x: fx(x), y: fx(y), z: fx(z) }
}

fn unit_sphere_scene() -> Sphere {
    Sphere { center: p(0.0, 0.0, 0.0), radius: fx(2.0) }
}

#[test]
fn test_ray_hit() {
    let sphere = unit_sphere_scene();
    let ray = Ray { start: p(0.0, 0.0, -4.0), direction: p(0.0, 0.0, 4.0) };
    let hit = sphere.hit(&ray, 0, i64::MAX).unwrap();
    assert_eq!(hit.t, fx(0.5));
}

#[test]
fn test_ray_miss() {
    let sphere = unit_sphere_scene();
    let ray = Ray { start: p(0.0, 0.0, -4.0), direction: p(4.0, 0.0, 0.0) };
    let hit = sphere.hit(&ray, 0, i64::MAX);
    assert!(hit.is_none());
}

#[test]
fn test_miss_discriminant() {
    let sphere = unit_sphere_scene();
    let ray = Ray { start: p(0.0, 0.0, -4.0), direction: p(4.0, 0.0, 0.0) };
    let hit = sphere.get_discriminant(&ray);
    assert!(hit < 0);
}

#[test]
fn test_single_hit_discriminant() {
    let sphere = unit_sphere_scene();
    let ray = Ray { start: p(0.0, 2.0, 10.0), direction: p(0.0, 0.0, -10.0) };
    let hit = sphere.get_discriminant(&ray);
    assert!(hit == 0);
}

#[test]
fn test_double_hit_discriminant() {
    let sphere = unit_sphere_scene();
    let ray = Ray { start: p(0.0, 0.0, -4.0), direction: p(0.0, 0.0, 4.0) };
    let hit = sphere.get_discriminant(&ray);
    assert!(hit > fx(1.0) as i128);
    assert_eq!(hit, fx(64.0) as i128);
}

#[test]
fn head_on_hit_record() {
    let sphere = unit_sphere_scene();
    let ray = Ray { start: p(0.0, 0.0, -4.0), direction: p(0.0, 0.0, 4.0) };
    let hit = closest_hit(&ray, 0, i64::MAX, &[sphere]).unwrap();
    assert_eq!(hit.t, fx(0.5));
    assert_eq!(hit.p, p(0.0, 0.0, -2.0));
    assert!(hit.is_front_face);
    assert_eq!(hit.normal, p(0.0, 0.0, -1.0));
}

#[test]
fn perpendicular_ray_misses() {
    let sphere = unit_sphere_scene();
    let ray = Ray { start: p(0.0, 0.0, -4.0), direction: p(4.0, 0.0, 0.0) };
    assert!(closest_hit(&ray, 0, i64::MAX, &[sphere]).is_none());
    assert!(closest_hit(&ray, i64::MIN, i64::MAX, &[sphere]).is_none());
    assert!(closest_hit(&ray, fx(-3.0), fx(3.0), &[sphere]).is_none());
}

#[test]
fn unit_direction_at_center_hits_at_distance_minus_radius() {
    let sphere = unit_sphere_scene();
    let ray = Ray { start: p(0.0, 0.0, -4.0), direction: p(0.0, 0.0, 1.0) };
    let hit = closest_hit(&ray, 0, i64::MAX, &[sphere]).unwrap();
    assert_eq!(hit.t, fx(2.0));
    let ray = Ray { start: p(3.0, 0.0, 0.0), direction: p(-1.0, 0.0, 0.0) };
    let hit = closest_hit(&ray, 0, i64::MAX, &[sphere]).unwrap();
    assert_eq!(hit.t, fx(1.0));
    assert_eq!(hit.normal, p(1.0, 0.0, 0.0));
}

#[test]
fn tangent_ray_has_one_root() {
    let sphere = unit_sphere_scene();
    let ray = Ray { start: p(0.0, 2.0, 10.0), direction: p(0.0, 0.0, -10.0) };
    let hit = sphere.hit(&ray, 0, i64::MAX).unwrap();
    assert_eq!(hit.t, fx(1.0));
    assert_eq!(hit.p, p(0.0, 2.0, 0.0));
    assert!(sphere.hit(&ray, fx(1.0), fx(1.0)).is_some());
    assert!(sphere.hit(&ray, fx(1.5), i64::MAX).is_none());
}

#[test]
fn ray_from_inside_hits_far_side_from_behind() {
    let sphere = unit_sphere_scene();
    let ray = Ray { start: p(0.0, 0.0, 0.0), direction: p(0.0, 0.0, 1.0) };
    let hit = sphere.hit(&ray, 0, i64::MAX).unwrap();
    assert_eq!(hit.t, fx(2.0));
    assert!(!hit.is_front_face);
    assert_eq!(hit.normal, p(0.0, 0.0, -1.0));
}

#[test]
fn interval_excludes_both_roots() {
    let sphere = unit_sphere_scene();
    let ray = Ray { start: p(0.0, 0.0, -4.0), direction: p(0.0, 0.0, 1.0) };
    assert!(sphere.hit(&ray, 0, fx(1.5)).is_none());
    assert!(sphere.hit(&ray, fx(6.5), i64::MAX).is_none());
    assert_eq!(sphere.hit(&ray, fx(3.0), i64::MAX).unwrap().t, fx(6.0));
}

#[test]
fn zero_direction_never_hits() {
    let sphere = unit_sphere_scene();
    let ray = Ray { start: p(0.0, 0.0, -4.0), direction: p(0.0, 0.0, 0.0) };
    assert!(sphere.hit(&ray, i64::MIN, i64::MAX).is_none());
}
