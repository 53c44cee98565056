use raytracer::color::Color;
use raytracer::fixed::SCALE;
use raytracer::point::Point;
use raytracer::ray::Ray;
use raytracer::shade::shade;
use raytracer::sphere::Sphere;

fn fx(v: f64) -> i64 {
    (v * SCALE as f64) as i64
}

fn p(x: f64, y: f64, z: f64) -> Point {
    Point { x: fx(x), y: fx(y), z: fx(z) }
}

#[test]
fn straight_up_is_sky_and_straight_down_is_white() {
    let up = Ray::new(p(0.0, 0.0, 0.0), p(0.0, 1.0, 0.0));
    assert_eq!(shade(&up, &None), Color::new(127, 179, 255));
    let down = Ray::new(p(0.0, 0.0, 0.0), p(0.0, -1.0, 0.0));
    assert_eq!(shade(&down, &None), Color::new(255, 255, 255));
}

#[test]
fn background_ignores_horizontal_direction() {
    let a = Ray::new(p(0.0, 0.0, 0.0), p(3.0, 0.0, 0.0));
    let b = Ray::new(p(0.0, 0.0, 0.0), p(0.0, 0.0, -0.25));
    assert_eq!(shade(&a, &None), Color::new(191, 217, 255));
    assert_eq!(shade(&b, &None), Color::new(191, 217, 255));
}

#[test]
fn zero_direction_shades_as_level_background() {
    let ray = Ray::new(p(0.0, 0.0, 0.0), p(0.0, 0.0, 0.0));
    assert_eq!(shade(&ray, &None), Color::new(191, 217, 255));
}

#[test]
fn hit_shades_by_normal() {
    let sphere = Sphere::new(p(0.0, 0.0, 0.0), fx(2.0));
    let ray = Ray::new(p(0.0, 0.0, -4.0), p(0.0, 0.0, 4.0));
    assert_eq!(ray.color_at_ray(&sphere), Color::new(127, 127, 0));
    let miss = Ray::new(p(0.0, 0.0, -4.0), p(0.0, 1.0, 0.0));
    assert_eq!(miss.color_at_ray(&sphere), Color::new(127, 179, 255));
}

#[test]
fn color_arithmetic_saturates() {
    let a = Color::new(200, 10, 16);
    let b = Color::new(100, 20, 16);
    assert_eq!(a.add(&b), Color::new(255, 30, 32));
    assert_eq!(a.sub(&b), Color::new(100, 0, 0));
    assert_eq!(a.mul(&b), Color::new(255, 200, 255));
    assert_eq!(a.mul_scalar(2), Color::new(255, 20, 32));
    assert_eq!(a.scale(fx(0.5)), Color::new(100, 5, 8));
    assert_eq!(a.scale(fx(-1.0)), Color::new(0, 0, 0));
    assert_eq!(a.scale(fx(3.0)), Color::new(255, 30, 48));
    assert_eq!(a.div(&b), Color::new(2, 0, 1));
    assert_eq!(a.div_scalar(3), Color::new(66, 3, 5));
}
