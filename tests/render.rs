use raytracer::color::Color;
use raytracer::fixed::SCALE;
use raytracer::point::Point;
use raytracer::render::{add_color, create_blue_gradient, create_rainbow_gradient};
use raytracer::scene::{Camera, Scene};
use raytracer::sphere::Sphere;

fn fx(v: f64) -> i64 {
    (v * SCALE as f64) as i64
}

fn p(x: f64, y: f64, z: f64) -> Point {
    Point { x: fx(x), y: fx(y), z: fx(z) }
}

fn camera() -> Camera {
    Camera {
        origin: p(0.0, 0.0, 0.0),
        lower_left: p(-2.0, -1.0, -1.0),
        horizontal: p(4.0, 0.0, 0.0),
        vertical: p(0.0, 2.0, 0.0),
    }
}

#[test]
fn add_color_appends_one_line() {
    let mut s = String::from("header\n");
    add_color(&mut s, &Color::new(255, 0, 17));
    add_color(&mut s, &Color::new(9, 100, 42));
    assert_eq!(s, "header\n255 0 17\n9 100 42\n");
}

#[test]
fn rainbow_gradient_rows_run_top_down() {
    let scene = Scene { width: 2, height: 2, camera: camera(), objects: vec![] };
    let mut out = String::new();
    create_rainbow_gradient(&scene, &mut out);
    assert_eq!(out, "0 127 63\n127 127 63\n0 0 63\n127 0 63\n");
}

#[test]
fn empty_image_renders_nothing() {
    let scene = Scene { width: 0, height: 3, camera: camera(), objects: vec![] };
    let mut out = String::new();
    create_rainbow_gradient(&scene, &mut out);
    create_blue_gradient(&scene, &mut out);
    assert_eq!(out, "");
}

#[test]
fn scene_render_shades_spheres_and_sky() {
    let scene = Scene {
        width: 4,
        height: 2,
        camera: camera(),
        objects: vec![
            Sphere::new(p(0.0, 0.0, -1.0), fx(0.5)),
            Sphere::new(p(0.0, -100.5, -1.0), fx(100.0)),
        ],
    };
    let mut out = String::new();
    create_blue_gradient(&scene, &mut out);
    assert_eq!(
        out,
        "191 217 255\n191 217 255\n127 127 255\n191 217 255\n\
         126 255 128\n127 255 128\n127 255 128\n128 255 128\n"
    );
}

#[test]
fn camera_ray_spans_the_viewport() {
    let cam = camera();
    let ray = cam.get_ray(SCALE / 2, SCALE / 2);
    assert_eq!(ray.start, p(0.0, 0.0, 0.0));
    assert_eq!(ray.direction, p(0.0, 0.0, -1.0));
}

#[test]
fn validate_rejects_bad_radius_and_far_camera() {
    let mut scene = Scene {
        width: 1,
        height: 1,
        camera: camera(),
        objects: vec![Sphere::new(p(0.0, 0.0, -1.0), fx(0.5))],
    };
    assert!(scene.validate());
    scene.objects.push(Sphere::new(p(0.0, 0.0, -1.0), 0));
    assert!(!scene.validate());
    scene.objects.pop();
    scene.camera.origin = p(5000.0, 0.0, 0.0);
    assert!(!scene.validate());
}
