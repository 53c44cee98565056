use raytracer::fixed::SCALE;
use raytracer::point::{GeometryError, Point};

fn fx(v: f64) -> i64 {
    (v * SCALE as f64) as i64
}

fn p(x: f64, y: f64, z: f64) -> Point {
    Point { x: fx(x), y: fx(y), z: fx(z) }
}

#[test]
fn test_adding_points() {
    let point_one = p(2.0, 4.0, 0.0);
    let point_two = p(1.0, 2.0, 3.0);
    let result = point_one.add(&point_two);
    assert_eq!(result, p(3.0, 6.0, 3.0));
}

#[test]
fn test_adding_negative_points() {
    let point_one = p(2.0, 4.0, 6.0);
    let point_two = p(-4.0, -2.0, -6.0);
    let result = point_one.add(&point_two);
    assert_eq!(result, p(-2.0, 2.0, 0.0));
}

#[test]
fn test_subtracting_points() {
    let point_one = p(2.0, 4.0, 0.0);
    let point_two = p(1.0, 2.0, 3.0);
    let result = point_one.sub(&point_two);
    assert_eq!(result, p(1.0, 2.0, -3.0));
}

#[test]
fn test_subtracting_negative_points() {
    let point_one = p(2.0, 4.0, 6.0);
    let point_two = p(-4.0, -2.0, -6.0);
    let result = point_one.sub(&point_two);
    assert_eq!(result, p(6.0, 6.0, 12.0));
}

#[test]
fn test_multiplying_points() {
    let point_one = p(2.0, 4.0, 0.0);
    let point_two = p(1.0, 2.0, 3.0);
    let result = point_one.mul(&point_two);
    assert_eq!(result, p(2.0, 8.0, 0.0));
}

#[test]
fn test_multiplying_point_by_float() {
    let point = p(2.0, 4.0, 0.0);
    let result = point.mul_scalar(fx(4.5));
    assert_eq!(result, p(9.0, 18.0, 0.0));
}

#[test]
fn test_dividing_points() {
    let point_one = p(2.0, 4.0, 12.0);
    let point_two = p(1.0, 2.0, 3.0);
    let result = point_one.div(&point_two);
    assert_eq!(result, p(2.0, 2.0, 4.0));
}

#[test]
fn test_dividing_point_by_float() {
    let point = p(2.0, 4.0, 0.0);
    let result = point.div_scalar(fx(4.0));
    assert_eq!(result, p(0.5, 1.0, 0.0));
}

#[test]
fn test_dot_product() {
    let point_one = p(2.0, 4.0, 12.0);
    let point_two = p(1.0, 2.0, 3.0);
    let result = point_one.dot(&point_two);
    assert_eq!(result, fx(46.0));
}

// The right-handed cross product of (2, 6, 4) and (1, 2, 3) is (10, -2, -2).
#[test]
fn test_cross_product() {
    let point_one = p(2.0, 6.0, 4.0);
    let point_two = p(1.0, 2.0, 3.0);
    let result = point_one.cross(&point_two);
    assert_eq!(result, p(10.0, -2.0, -2.0));
}

#[test]
fn cross_product_anticommutes() {
    let a = p(2.0, 6.0, 4.0);
    let b = p(1.0, 2.0, 3.0);
    assert_eq!(b.cross(&a), a.cross(&b).flip());
}

#[test]
fn cross_product_is_orthogonal_to_both_arguments() {
    let a = p(2.0, 6.0, 4.0);
    let b = p(1.0, 2.0, 3.0);
    let c = a.cross(&b);
    assert_eq!(c.dot(&a), 0);
    assert_eq!(c.dot(&b), 0);
    let a = Point { x: 12345, y: -67890, z: 4242 };
    let b = Point { x: -999, y: 31337, z: 77777 };
    let c = a.cross(&b);
    assert!(c.dot_exact(&a).abs() <= 12345 + 67890 + 4242);
    assert!(c.dot_exact(&b).abs() <= 999 + 31337 + 77777);
}

#[test]
fn dot_product_commutes() {
    let a = p(2.5, -4.0, 12.0);
    let b = p(1.0, 2.25, -3.0);
    assert_eq!(a.dot(&b), b.dot(&a));
}

#[test]
fn length_of_three_four_zero_is_five() {
    assert_eq!(p(3.0, 4.0, 0.0).length(), fx(5.0));
    assert_eq!(p(0.0, 0.0, 0.0).length(), 0);
}

#[test]
fn unit_vector_has_length_one() {
    let u = p(3.0, 4.0, 0.0).unit_vector().unwrap();
    assert_eq!(u, Point { x: 39321, y: 52428, z: 0 });
    let len = u.length();
    assert!(len >= SCALE - 4 && len <= SCALE);
    let up = p(0.0, 7.0, 0.0).unit_vector().unwrap();
    assert_eq!(up, p(0.0, 1.0, 0.0));
}

#[test]
fn unit_vector_of_zero_is_degenerate() {
    assert_eq!(p(0.0, 0.0, 0.0).unit_vector(), Err(GeometryError::DegenerateVector));
}

#[test]
fn flip_negates_every_component() {
    assert_eq!(p(1.0, -2.0, 0.5).flip(), p(-1.0, 2.0, -0.5));
}
