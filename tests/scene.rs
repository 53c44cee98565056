use raytracer::fixed::SCALE;
use raytracer::point::Point;
use raytracer::ray::Ray;
use raytracer::scene::closest_hit;
use raytracer::sphere::Sphere;

fn fx(v: f64) -> i64 {
    (v * SCALE as f64) as i64
}

fn p(x: f64, y: f64, z: f64) -> Point {
    Point { x: fx(x), y: fx(y), z: fx(z) }
}

#[test]
fn ray_hitting_only_the_farther_sphere_gets_its_record() {
    let near = Sphere::new(p(5.0, 0.0, -5.0), fx(1.0));
    let far = Sphere::new(p(0.0, 0.0, -10.0), fx(1.0));
    let ray = Ray::new(p(0.0, 0.0, 0.0), p(0.0, 0.0, -1.0));
    let hit = closest_hit(&ray, 0, i64::MAX, &[near, far]).unwrap();
    assert_eq!(hit.t, fx(9.0));
    assert_eq!(hit.p, p(0.0, 0.0, -9.0));
    let hit = closest_hit(&ray, 0, i64::MAX, &[far, near]).unwrap();
    assert_eq!(hit.t, fx(9.0));
}

#[test]
fn ray_hitting_both_spheres_gets_the_nearer() {
    let near = Sphere::new(p(0.0, 0.0, -5.0), fx(1.0));
    let far = Sphere::new(p(0.0, 0.0, -10.0), fx(1.0));
    let ray = Ray::new(p(0.0, 0.0, 0.0), p(0.0, 0.0, -1.0));
    let a = closest_hit(&ray, 0, i64::MAX, &[near, far]).unwrap();
    let b = closest_hit(&ray, 0, i64::MAX, &[far, near]).unwrap();
    assert_eq!(a.t, fx(4.0));
    assert_eq!(b.t, fx(4.0));
    assert!(a.t < fx(9.0));
}

#[test]
fn empty_scene_has_no_hit() {
    let ray = Ray::new(p(0.0, 0.0, 0.0), p(0.0, 0.0, -1.0));
    assert!(closest_hit(&ray, 0, i64::MAX, &[]).is_none());
}
