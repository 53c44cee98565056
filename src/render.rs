//! Rendering a scene to the text of a plain pixel image: one `R G B` line
//! per pixel, rows from the top of the image down.

use vstd::prelude::*;
use crate::fixed::{SCALE, COORD_MAX, tdiv};
use crate::point::{Point, within};
use crate::ray::Ray;
use crate::color::Color;
use crate::sphere::Sphere;
use crate::scene::{Camera, Scene, all_wf, closest_spec, closest_hit};
use crate::shade::{shade_spec, shade};

verus! {

/// Relies on `String::push`: appends one character to the string.
#[verifier::external_body]
fn push_char(s: &mut String, c: char)
    ensures
        final(s)@ == old(s)@.push(c),
{
    s.push(c)
}

/// The decimal digit `d`.
pub open spec fn digit(d: int) -> char {
    if d <= 0 {
        '0'
    } else if d == 1 {
        '1'
    } else if d == 2 {
        '2'
    } else if d == 3 {
        '3'
    } else if d == 4 {
        '4'
    } else if d == 5 {
        '5'
    } else if d == 6 {
        '6'
    } else if d == 7 {
        '7'
    } else if d == 8 {
        '8'
    } else {
        '9'
    }
}

/// The decimal numeral of `n`, without leading zeros.
pub open spec fn decimal(n: nat) -> Seq<char>
    decreases n,
{
    if n < 10 {
        seq![digit(n as int)]
    } else {
        decimal(n / 10).push(digit((n % 10) as int))
    }
}

/// The line of one pixel: `"R G B\n"`.
pub open spec fn color_text(c: Color) -> Seq<char> {
    decimal(c.r as nat) + seq![' '] + decimal(c.g as nat) + seq![' '] + decimal(c.b as nat) + seq![
        '\n',
    ]
}

/// The lines of the first `n` pixels of row `row`, left to right.
pub open spec fn row_text(f: spec_fn(int, int) -> Color, row: int, n: int) -> Seq<char>
    decreases n,
{
    if n <= 0 {
        Seq::empty()
    } else {
        row_text(f, row, n - 1) + color_text(f(row, n - 1))
    }
}

/// The lines of the top `k` rows of a `width` by `height` image, from row
/// `height - 1` down.
pub open spec fn grid_text(f: spec_fn(int, int) -> Color, width: int, height: int, k: int) -> Seq<
    char,
>
    decreases k,
{
    if k <= 0 {
        Seq::empty()
    } else {
        grid_text(f, width, height, k - 1) + row_text(f, height - k, width)
    }
}

/// `v * 255.99 / extent`, truncated: a position as a channel.
pub open spec fn ramp(v: int, extent: int) -> int {
    (25599 * v) / (100 * extent)
}

/// The rainbow test pattern: red grows to the right, green upward.
pub open spec fn rainbow_pixel(width: int, height: int, row: int, col: int) -> Color {
    Color { r: ramp(col, width) as u8, g: ramp(row, height) as u8, b: 63 }
}

pub open spec fn rainbow_fn(width: int, height: int) -> spec_fn(int, int) -> Color {
    |row: int, col: int| rainbow_pixel(width, height, row, col)
}

/// A fixed-point fraction `num / den` of the way across the viewport.
pub open spec fn fraction(num: int, den: int) -> int {
    (num * SCALE) / den
}

/// The ray from the eye through the viewport point at fractions `(u, v)`.
pub open spec fn camera_ray(cam: Camera, u: int, v: int) -> Ray {
    Ray {
        start: cam.origin,
        direction: Point {
            x: (cam.lower_left.x + tdiv(cam.horizontal.x * u, SCALE as int) + tdiv(
                cam.vertical.x * v,
                SCALE as int,
            ) - cam.origin.x) as i64,
            y: (cam.lower_left.y + tdiv(cam.horizontal.y * u, SCALE as int) + tdiv(
                cam.vertical.y * v,
                SCALE as int,
            ) - cam.origin.y) as i64,
            z: (cam.lower_left.z + tdiv(cam.horizontal.z * u, SCALE as int) + tdiv(
                cam.vertical.z * v,
                SCALE as int,
            ) - cam.origin.z) as i64,
        },
    }
}

/// The color of a pixel of the rendered scene.
pub open spec fn scene_pixel(
    cam: Camera,
    objects: Seq<Sphere>,
    width: int,
    height: int,
    row: int,
    col: int,
) -> Color {
    let ray = camera_ray(cam, fraction(col, width), fraction(row, height));
    shade_spec(ray, closest_spec(objects, ray, 0, i64::MAX as int))
}

pub open spec fn scene_fn(cam: Camera, objects: Seq<Sphere>, width: int, height: int) -> spec_fn(
    int,
    int,
) -> Color {
    |row: int, col: int| scene_pixel(cam, objects, width, height, row, col)
}

/// Every point of the camera lies within a quarter of `COORD_MAX`, so that
/// each ray direction is in range.
pub open spec fn quarter_range(p: Point) -> bool {
    within(p.x as int, COORD_MAX / 4) && within(p.y as int, COORD_MAX / 4) && within(
        p.z as int,
        COORD_MAX / 4,
    )
}

impl Camera {
    pub open spec fn wf(self) -> bool {
        quarter_range(self.origin) && quarter_range(self.lower_left) && quarter_range(
            self.horizontal,
        ) && quarter_range(self.vertical)
    }

    /// The ray through the viewport point at fractions `(u, v)` of the
    /// horizontal and vertical edges.
    pub fn get_ray(&self, u: i64, v: i64) -> (r: Ray)
        requires
            self.wf(),
            0 <= u <= SCALE,
            0 <= v <= SCALE,
        ensures
            r == camera_ray(*self, u as int, v as int),
            r.in_range(),
    {
        proof {
            lemma_quarter_in_range(self.origin);
            lemma_quarter_in_range(self.lower_left);
            lemma_quarter_in_range(self.horizontal);
            lemma_quarter_in_range(self.vertical);
        }
        let hu = self.horizontal.mul_scalar(u);
        let vv = self.vertical.mul_scalar(v);
        proof {
            lemma_fraction_of(self.horizontal.x as int, u as int);
            lemma_fraction_of(self.horizontal.y as int, u as int);
            lemma_fraction_of(self.horizontal.z as int, u as int);
            lemma_fraction_of(self.vertical.x as int, v as int);
            lemma_fraction_of(self.vertical.y as int, v as int);
            lemma_fraction_of(self.vertical.z as int, v as int);
        }
        let a = self.lower_left.add(&hu);
        let b = a.add(&vv);
        let d = b.sub(&self.origin);
        Ray { start: self.origin, direction: d }
    }
}

proof fn lemma_quarter_in_range(p: Point)
    requires
        quarter_range(p),
    ensures
        p.in_range(),
{
}

/// A fraction `u` in `[0, 1]` of `c` is no larger than `c`.
proof fn lemma_fraction_of(c: int, u: int)
    requires
        within(c, COORD_MAX / 4),
        0 <= u <= SCALE,
    ensures
        within(tdiv(c * u, SCALE as int), COORD_MAX / 4),
{
    let s = SCALE as int;
    if c >= 0 {
        assert(0 <= c * u <= c * s) by (nonlinear_arith)
            requires
                c >= 0,
                0 <= u <= s,
        ;
        assert((c * u) / s <= c) by (nonlinear_arith)
            requires
                0 <= c * u <= c * s,
                s > 0,
        ;
        assert((c * u) / s >= 0) by (nonlinear_arith)
            requires
                0 <= c * u,
                s > 0,
        ;
    } else {
        assert(0 <= -(c * u) <= (-c) * s) by (nonlinear_arith)
            requires
                c < 0,
                0 <= u <= s,
        ;
        assert((-(c * u)) / s <= -c) by (nonlinear_arith)
            requires
                0 <= -(c * u) <= (-c) * s,
                s > 0,
        ;
        assert((-(c * u)) / s >= 0) by (nonlinear_arith)
            requires
                0 <= -(c * u),
                s > 0,
        ;
    }
}

impl Scene {
    /// The camera and every sphere are in range.
    pub open spec fn wf(&self) -> bool {
        self.camera.wf() && all_wf(self.objects@)
    }

    /// Whether the scene is one the renderer accepts: camera points within a
    /// quarter of `COORD_MAX`, every sphere's center in range and its radius
    /// positive and in range.
    pub fn validate(&self) -> (r: bool)
        ensures
            r == self.wf(),
    {
        let cam = &self.camera;
        if !(quarter_point(&cam.origin) && quarter_point(&cam.lower_left) && quarter_point(
            &cam.horizontal,
        ) && quarter_point(&cam.vertical)) {
            return false;
        }
        let mut i: usize = 0;
        while i < self.objects.len()
            invariant
                0 <= i <= self.objects.len(),
                forall|j: int| 0 <= j < i ==> #[trigger] self.objects@[j].wf(),
            decreases self.objects.len() - i,
        {
            let s = &self.objects[i];
            let q = COORD_MAX;
            if !(-q <= s.center.x && s.center.x <= q && -q <= s.center.y && s.center.y <= q && -q
                <= s.center.z && s.center.z <= q && 0 < s.radius && s.radius <= q) {
                assert(!self.objects@[i as int].wf());
                return false;
            }
            i = i + 1;
        }
        true
    }
}

fn quarter_point(p: &Point) -> (r: bool)
    ensures
        r == quarter_range(*p),
{
    let q = COORD_MAX / 4;
    -q <= p.x && p.x <= q && -q <= p.y && p.y <= q && -q <= p.z && p.z <= q
}

/// The character of the digit `d`.
fn digit_char(d: u8) -> (c: char)
    requires
        d < 10,
    ensures
        c == digit(d as int),
{
    if d == 0 {
        '0'
    } else if d == 1 {
        '1'
    } else if d == 2 {
        '2'
    } else if d == 3 {
        '3'
    } else if d == 4 {
        '4'
    } else if d == 5 {
        '5'
    } else if d == 6 {
        '6'
    } else if d == 7 {
        '7'
    } else if d == 8 {
        '8'
    } else {
        '9'
    }
}

/// Appends the decimal numeral of `n`.
fn push_decimal(s: &mut String, n: u8)
    ensures
        final(s)@ == old(s)@ + decimal(n as nat),
{
    let ghost start = s@;
    if n >= 100 {
        push_char(s, digit_char(n / 100));
        push_char(s, digit_char((n / 10) % 10));
        push_char(s, digit_char(n % 10));
        proof {
            reveal_with_fuel(decimal, 3);
            assert((n / 10) as nat / 10 == n / 100);
            assert(decimal(n as nat) =~= seq![digit((n / 100) as int), digit(((n / 10) % 10) as int), digit((n % 10) as int)]);
            assert(s@ =~= start + decimal(n as nat));
        }
    } else if n >= 10 {
        push_char(s, digit_char(n / 10));
        push_char(s, digit_char(n % 10));
        proof {
            reveal_with_fuel(decimal, 2);
            assert(decimal(n as nat) =~= seq![digit((n / 10) as int), digit((n % 10) as int)]);
            assert(s@ =~= start + decimal(n as nat));
        }
    } else {
        push_char(s, digit_char(n));
        proof {
            reveal_with_fuel(decimal, 1);
            assert(s@ =~= start + decimal(n as nat));
        }
    }
}

/// Appends the line of one pixel, `"R G B\n"`.
pub fn add_color(s: &mut String, color: &Color)
    ensures
        final(s)@ == old(s)@ + color_text(*color),
{
    let ghost start = s@;
    push_decimal(s, color.r);
    push_char(s, ' ');
    push_decimal(s, color.g);
    push_char(s, ' ');
    push_decimal(s, color.b);
    push_char(s, '\n');
    assert(s@ =~= start + color_text(*color));
}

/// Appends the lines of the rainbow test pattern for the scene's size.
pub fn create_rainbow_gradient(scene: &Scene, output: &mut String)
    ensures
        final(output)@ == old(output)@ + grid_text(
            rainbow_fn(scene.width as int, scene.height as int),
            scene.width as int,
            scene.height as int,
            scene.height as int,
        ),
{
    let ghost f = rainbow_fn(scene.width as int, scene.height as int);
    let ghost start = output@;
    let w = scene.width;
    let h = scene.height;
    let mut k: u32 = 0;
    while k < h
        invariant
            k <= h,
            w == scene.width,
            h == scene.height,
            f == rainbow_fn(w as int, h as int),
            output@ == start + grid_text(f, w as int, h as int, k as int),
        decreases h - k,
    {
        let row = h - 1 - k;
        let mut col: u32 = 0;
        while col < w
            invariant
                k < h,
                row == h - 1 - k,
                col <= w,
                w == scene.width,
                h == scene.height,
                f == rainbow_fn(w as int, h as int),
                output@ == start + grid_text(f, w as int, h as int, k as int) + row_text(
                    f,
                    row as int,
                    col as int,
                ),
            decreases w - col,
        {
            let r = ramp_channel(col, w);
            let g = ramp_channel(row, h);
            let pixel = Color { r, g, b: 63 };
            assert(pixel == f(row as int, col as int));
            add_color(output, &pixel);
            assert(output@ =~= start + grid_text(f, w as int, h as int, k as int) + row_text(
                f,
                row as int,
                col + 1,
            ));
            col = col + 1;
        }
        assert(output@ =~= start + grid_text(f, w as int, h as int, k + 1));
        k = k + 1;
    }
}

/// `v * 255.99 / extent` for `v < extent`: a channel below 256.
fn ramp_channel(v: u32, extent: u32) -> (c: u8)
    requires
        v < extent,
    ensures
        c == ramp(v as int, extent as int),
{
    let num: u64 = 25599 * (v as u64);
    let den: u64 = 100 * (extent as u64);
    assert(num / den < 256) by (nonlinear_arith)
        requires
            num == 25599 * v,
            den == 100 * extent,
            v < extent,
    ;
    (num / den) as u8
}

/// `num / den` of the way across, as a fixed-point fraction in `[0, 1)`.
fn fraction_of(num: u32, den: u32) -> (u: i64)
    requires
        num < den,
    ensures
        u == fraction(num as int, den as int),
        0 <= u < SCALE,
{
    let n: i64 = (num as i64) * SCALE;
    let u = n / (den as i64);
    assert(u < SCALE) by (nonlinear_arith)
        requires
            u == (num * 65536) / (den as int),
            num < den,
    ;
    u
}

/// Appends the lines of the rendered scene: each pixel's ray from the eye
/// through the viewport is shaded by the closest sphere it hits, or by the
/// background.
pub fn create_blue_gradient(scene: &Scene, output: &mut String)
    requires
        scene.wf(),
    ensures
        final(output)@ == old(output)@ + grid_text(
            scene_fn(scene.camera, scene.objects@, scene.width as int, scene.height as int),
            scene.width as int,
            scene.height as int,
            scene.height as int,
        ),
{
    let ghost f = scene_fn(scene.camera, scene.objects@, scene.width as int, scene.height as int);
    let ghost start = output@;
    let w = scene.width;
    let h = scene.height;
    let objects = scene.objects.as_slice();
    let mut k: u32 = 0;
    while k < h
        invariant
            k <= h,
            w == scene.width,
            h == scene.height,
            scene.wf(),
            objects@ == scene.objects@,
            f == scene_fn(scene.camera, scene.objects@, w as int, h as int),
            output@ == start + grid_text(f, w as int, h as int, k as int),
        decreases h - k,
    {
        let row = h - 1 - k;
        let v = fraction_of(row, h);
        let mut col: u32 = 0;
        while col < w
            invariant
                k < h,
                row == h - 1 - k,
                v == fraction(row as int, h as int),
                0 <= v < SCALE,
                col <= w,
                w == scene.width,
                h == scene.height,
                scene.wf(),
                objects@ == scene.objects@,
                f == scene_fn(scene.camera, scene.objects@, w as int, h as int),
                output@ == start + grid_text(f, w as int, h as int, k as int) + row_text(
                    f,
                    row as int,
                    col as int,
                ),
            decreases w - col,
        {
            let u = fraction_of(col, w);
            let ray = scene.camera.get_ray(u, v);
            let hit = closest_hit(&ray, 0, i64::MAX, objects);
            let pixel = shade(&ray, &hit);
            assert(pixel == f(row as int, col as int));
            add_color(output, &pixel);
            assert(output@ =~= start + grid_text(f, w as int, h as int, k as int) + row_text(
                f,
                row as int,
                col + 1,
            ));
            col = col + 1;
        }
        assert(output@ =~= start + grid_text(f, w as int, h as int, k + 1));
        k = k + 1;
    }
}

} // verus!
