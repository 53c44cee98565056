use raytracer::fixed::SCALE;
use raytracer::point::Point;
use raytracer::ray::Ray;

fn fx(v: f64) -> i64 {
    (v * SCALE as f64) as i64
}

fn p(x: f64, y: f64, z: f64) -> Point {
    Point { x: fx(x), y: fx(y), z: fx(z) }
}

#[test]
fn test_should_return_origin() {
    let ray = Ray { start: p(0.0, 0.0, 0.0), direction: p(2.0, 3.0, 1.0) };
    assert_eq!(*ray.origin(), p(0.0, 0.0, 0.0));
}

#[test]
fn test_should_return_direction() {
    let ray = Ray { start: p(0.0, 0.0, 0.0), direction: p(2.0, 3.0, 1.0) };
    assert_eq!(*ray.direction(), p(2.0, 3.0, 1.0));
}

#[test]
fn test_point_at_parameter() {
    let ray = Ray { start: p(0.0, 0.0, 0.0), direction: p(2.0, 3.0, 1.0) };
    assert_eq!(ray.point_at_parameter(fx(4.0)), p(8.0, 12.0, 4.0));
}

#[test]
fn test_point_at_start() {
    let ray = Ray { start: p(1.0, 2.0, 8.0), direction: p(2.0, 3.0, 1.0) };
    assert_eq!(ray.point_at_parameter(0), p(1.0, 2.0, 8.0));
}

#[test]
fn point_at_negative_parameter() {
    let ray = Ray::new(p(1.0, 2.0, 8.0), p(2.0, 3.0, 1.0));
    assert_eq!(ray.point_at_parameter(fx(-0.5)), p(0.0, 0.5, 7.5));
}
