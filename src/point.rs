//! Three-component fixed-point vectors, used both as points and as directions.

use vstd::prelude::*;
use crate::fixed::{SCALE, COORD_MAX, tdiv, isqrt, div_trunc, sqrt_floor};

verus! {

/// A vector of three fixed-point components.
#[derive(Clone, Copy, Debug, PartialEq, Eq, Structural)]
pub struct Point {
    pub x: i64,
    pub y: i64,
    pub z: i64,
}

/// Failures of the geometry operations.
#[derive(Clone, Copy, Debug, PartialEq, Eq, Structural)]
pub enum GeometryError {
    /// A unit vector was asked of the zero vector.
    DegenerateVector,
}

/// Truncated quotient for a divisor of either sign.
pub open spec fn quot(a: int, b: int) -> int {
    if b > 0 {
        tdiv(a, b)
    } else {
        -tdiv(a, -b)
    }
}

/// `|v| <= bound`.
pub open spec fn within(v: int, bound: int) -> bool {
    -bound <= v <= bound
}

/// The exact dot product of the raw components (scale `SCALE * SCALE`).
pub open spec fn dot_raw(a: Point, b: Point) -> int {
    a.x * b.x + a.y * b.y + a.z * b.z
}

/// The fixed-point dot product.
pub open spec fn dot_spec(a: Point, b: Point) -> int {
    tdiv(dot_raw(a, b), SCALE as int)
}

/// The fixed-point length: `sqrt(dot(v, v))`, rounded down.
pub open spec fn length_spec(v: Point) -> int {
    isqrt(dot_raw(v, v))
}

/// The length of `v` with twice the fractional bits (scale `SCALE * SCALE`).
pub open spec fn fine_length(v: Point) -> int {
    isqrt(dot_raw(v, v) * SCALE * SCALE)
}

/// One component of the unit vector along `v`.
pub open spec fn unit_component(c: int, v: Point) -> int {
    tdiv(c * SCALE * SCALE, fine_length(v))
}

/// The fixed-point cross product
/// `(ay*bz - az*by, az*bx - ax*bz, ax*by - ay*bx)`.
pub open spec fn cross_spec(a: Point, b: Point) -> Point {
    Point {
        x: tdiv(a.y * b.z - a.z * b.y, SCALE as int) as i64,
        y: tdiv(a.z * b.x - a.x * b.z, SCALE as int) as i64,
        z: tdiv(a.x * b.y - a.y * b.x, SCALE as int) as i64,
    }
}

/// `u` is the unit vector along `v`: each component of `v` over its
/// length, with `SCALE` units for one.
pub open spec fn is_unit_of(u: Point, v: Point) -> bool {
    u.x == unit_component(v.x as int, v) && u.y == unit_component(v.y as int, v) && u.z
        == unit_component(v.z as int, v)
}

impl Point {
    /// Every component lies within `COORD_MAX`.
    pub open spec fn in_range(self) -> bool {
        within(self.x as int, COORD_MAX as int) && within(self.y as int, COORD_MAX as int)
            && within(self.z as int, COORD_MAX as int)
    }

    pub open spec fn is_zero(self) -> bool {
        self.x == 0 && self.y == 0 && self.z == 0
    }

    pub fn new(x: i64, y: i64, z: i64) -> (r: Point)
        ensures
            r.x == x && r.y == y && r.z == z,
    {
        Point { x, y, z }
    }

    /// Fixed-point length `sqrt(dot(v, v))`, rounded down; never negative.
    pub fn length(&self) -> (r: i64)
        requires
            self.in_range(),
        ensures
            r == length_spec(*self),
            r >= 0,
    {
        let n = self.dot_exact(self);
        proof {
            lemma_dot_self_bound(*self);
        }
        let r = sqrt_floor(n as u128);
        assert(r * r <= n);
        assert(r <= 0x8000_0000) by (nonlinear_arith)
            requires
                r * r <= n,
                n <= 3 * 0x1000_0000_0000_0000,
        ;
        r as i64
    }

    /// The vector of length one (`SCALE` units) along `self`; the zero
    /// vector has none.
    pub fn unit_vector(&self) -> (r: Result<Point, GeometryError>)
        requires
            self.in_range(),
        ensures
            self.is_zero() ==> r == Err::<Point, GeometryError>(GeometryError::DegenerateVector),
            !self.is_zero() ==> (r matches Ok(u) && is_unit_of(u, *self)),
            r matches Ok(u) ==> u.in_range() && within(u.x as int, SCALE as int) && within(
                u.y as int,
                SCALE as int,
            ) && within(u.z as int, SCALE as int),
    {
        if self.x == 0 && self.y == 0 && self.z == 0 {
            return Err(GeometryError::DegenerateVector);
        }
        let n = self.dot_exact(self);
        proof {
            lemma_dot_self_bound(*self);
            lemma_dot_self_positive(*self);
        }
        let s2u: u128 = 0x1_0000_0000;
        assert(s2u == SCALE * SCALE);
        assert((n as u128) * s2u <= 0x3000_0000_0000_0000_0000_0000) by (nonlinear_arith)
            requires
                0 <= n <= 3 * 0x1000_0000_0000_0000,
                s2u == 0x1_0000_0000,
        ;
        let scaled: u128 = (n as u128) * s2u;
        assert(scaled == dot_raw(*self, *self) * SCALE * SCALE) by (nonlinear_arith)
            requires
                scaled == n * s2u,
                s2u == SCALE * SCALE,
                n == dot_raw(*self, *self),
        ;
        let m = sqrt_floor(scaled);
        proof {
            crate::fixed::lemma_square_le(m as int, 0x8000_0000_0000);
        }
        proof {
            lemma_fine_length_bounds(*self, m as int);
        }
        let mi = m as i128;
        let s2: i128 = (SCALE as i128) * (SCALE as i128);
        let ux = div_trunc((self.x as i128) * s2, mi);
        let uy = div_trunc((self.y as i128) * s2, mi);
        let uz = div_trunc((self.z as i128) * s2, mi);
        proof {
            lemma_unit_component_bound(self.x as int, m as int);
            lemma_unit_component_bound(self.y as int, m as int);
            lemma_unit_component_bound(self.z as int, m as int);
        }
        Ok(Point { x: ux as i64, y: uy as i64, z: uz as i64 })
    }

    /// The exact dot product of the raw components.
    pub fn dot_exact(&self, other: &Point) -> (r: i64)
        requires
            self.in_range(),
            other.in_range(),
        ensures
            r == dot_raw(*self, *other),
    {
        proof {
            lemma_product_bound(self.x as int, other.x as int);
            lemma_product_bound(self.y as int, other.y as int);
            lemma_product_bound(self.z as int, other.z as int);
        }
        self.x * other.x + self.y * other.y + self.z * other.z
    }

    /// Fixed-point dot product.
    pub fn dot(&self, other: &Point) -> (r: i64)
        requires
            self.in_range(),
            other.in_range(),
        ensures
            r == dot_spec(*self, *other),
    {
        let raw = self.dot_exact(other);
        div_trunc(raw as i128, SCALE as i128) as i64
    }

    /// Right-handed cross product
    /// `(ay*bz - az*by, az*bx - ax*bz, ax*by - ay*bx)`.
    pub fn cross(&self, other: &Point) -> (r: Point)
        requires
            self.in_range(),
            other.in_range(),
        ensures
            r == cross_spec(*self, *other),
    {
        proof {
            lemma_product_bound(self.y as int, other.z as int);
            lemma_product_bound(self.z as int, other.y as int);
            lemma_product_bound(self.z as int, other.x as int);
            lemma_product_bound(self.x as int, other.z as int);
            lemma_product_bound(self.x as int, other.y as int);
            lemma_product_bound(self.y as int, other.x as int);
        }
        let s = SCALE as i128;
        proof {
            lemma_tdiv_shrinks(self.y * other.z - self.z * other.y, SCALE as int);
            lemma_tdiv_shrinks(self.z * other.x - self.x * other.z, SCALE as int);
            lemma_tdiv_shrinks(self.x * other.y - self.y * other.x, SCALE as int);
        }
        let x = div_trunc((self.y * other.z - self.z * other.y) as i128, s);
        let y = div_trunc((self.z * other.x - self.x * other.z) as i128, s);
        let z = div_trunc((self.x * other.y - self.y * other.x) as i128, s);
        Point { x: x as i64, y: y as i64, z: z as i64 }
    }

    /// Component-wise sum.
    pub fn add(&self, other: &Point) -> (r: Point)
        requires
            self.in_range(),
            other.in_range(),
        ensures
            r.x == self.x + other.x,
            r.y == self.y + other.y,
            r.z == self.z + other.z,
    {
        Point { x: self.x + other.x, y: self.y + other.y, z: self.z + other.z }
    }

    /// Component-wise difference.
    pub fn sub(&self, other: &Point) -> (r: Point)
        requires
            self.in_range(),
            other.in_range(),
        ensures
            r.x == self.x - other.x,
            r.y == self.y - other.y,
            r.z == self.z - other.z,
    {
        Point { x: self.x - other.x, y: self.y - other.y, z: self.z - other.z }
    }

    /// Component-wise fixed-point product.
    pub fn mul(&self, other: &Point) -> (r: Point)
        requires
            self.in_range(),
            other.in_range(),
        ensures
            r.x == tdiv(self.x * other.x, SCALE as int),
            r.y == tdiv(self.y * other.y, SCALE as int),
            r.z == tdiv(self.z * other.z, SCALE as int),
    {
        self.mul_parts(other.x, other.y, other.z)
    }

    /// Fixed-point product of every component with `k`.
    pub fn mul_scalar(&self, k: i64) -> (r: Point)
        requires
            self.in_range(),
            within(k as int, COORD_MAX as int),
        ensures
            r.x == tdiv(self.x * k, SCALE as int),
            r.y == tdiv(self.y * k, SCALE as int),
            r.z == tdiv(self.z * k, SCALE as int),
    {
        self.mul_parts(k, k, k)
    }

    fn mul_parts(&self, kx: i64, ky: i64, kz: i64) -> (r: Point)
        requires
            self.in_range(),
            within(kx as int, COORD_MAX as int),
            within(ky as int, COORD_MAX as int),
            within(kz as int, COORD_MAX as int),
        ensures
            r.x == tdiv(self.x * kx, SCALE as int),
            r.y == tdiv(self.y * ky, SCALE as int),
            r.z == tdiv(self.z * kz, SCALE as int),
    {
        proof {
            lemma_product_bound(self.x as int, kx as int);
            lemma_product_bound(self.y as int, ky as int);
            lemma_product_bound(self.z as int, kz as int);
        }
        let s = SCALE as i128;
        let x = div_trunc((self.x as i128) * (kx as i128), s);
        let y = div_trunc((self.y as i128) * (ky as i128), s);
        let z = div_trunc((self.z as i128) * (kz as i128), s);
        proof {
            lemma_tdiv_shrinks(self.x * kx, SCALE as int);
            lemma_tdiv_shrinks(self.y * ky, SCALE as int);
            lemma_tdiv_shrinks(self.z * kz, SCALE as int);
        }
        Point { x: x as i64, y: y as i64, z: z as i64 }
    }

    /// Component-wise fixed-point quotient; no component of `other` is zero.
    pub fn div(&self, other: &Point) -> (r: Point)
        requires
            self.in_range(),
            other.x != 0 && other.y != 0 && other.z != 0,
        ensures
            r.x == quot(self.x * SCALE, other.x as int),
            r.y == quot(self.y * SCALE, other.y as int),
            r.z == quot(self.z * SCALE, other.z as int),
    {
        Point {
            x: quot_scaled(self.x, other.x),
            y: quot_scaled(self.y, other.y),
            z: quot_scaled(self.z, other.z),
        }
    }

    /// Fixed-point quotient of every component by a non-zero `k`.
    pub fn div_scalar(&self, k: i64) -> (r: Point)
        requires
            self.in_range(),
            k != 0,
        ensures
            r.x == quot(self.x * SCALE, k as int),
            r.y == quot(self.y * SCALE, k as int),
            r.z == quot(self.z * SCALE, k as int),
    {
        Point { x: quot_scaled(self.x, k), y: quot_scaled(self.y, k), z: quot_scaled(self.z, k) }
    }

    /// No component is `i64::MIN`, so every one can be negated.
    pub open spec fn negatable(self) -> bool {
        self.x > i64::MIN && self.y > i64::MIN && self.z > i64::MIN
    }

    /// Every component negated.
    pub fn flip(&self) -> (r: Point)
        requires
            self.negatable(),
        ensures
            r.x == -self.x && r.y == -self.y && r.z == -self.z,
            self.in_range() ==> r.in_range(),
    {
        Point { x: -self.x, y: -self.y, z: -self.z }
    }
}

/// `c * SCALE / k`, truncated, for a coordinate `c` in range.
fn quot_scaled(c: i64, k: i64) -> (r: i64)
    requires
        within(c as int, COORD_MAX as int),
        k != 0,
    ensures
        r == quot(c * SCALE, k as int),
{
    let num = (c as i128) * (SCALE as i128);
    assert(within(num as int, 0x4000_0000_0000)) by (nonlinear_arith)
        requires
            num == c * 65536,
            within(c as int, 0x4000_0000),
    ;
    if k > 0 {
        let q = div_trunc(num, k as i128);
        proof {
            lemma_tdiv_shrinks(num as int, k as int);
        }
        q as i64
    } else {
        let q = div_trunc(num, -(k as i128));
        proof {
            lemma_tdiv_shrinks(num as int, -k);
        }
        (-q) as i64
    }
}

pub proof fn lemma_product_bound(a: int, b: int)
    requires
        within(a, COORD_MAX as int),
        within(b, COORD_MAX as int),
    ensures
        within(a * b, 0x1000_0000_0000_0000),
{
    assert(within(a * b, 0x1000_0000_0000_0000)) by (nonlinear_arith)
        requires
            within(a, 0x4000_0000),
            within(b, 0x4000_0000),
    ;
}

/// Truncating division by a positive divisor never grows the magnitude.
pub proof fn lemma_tdiv_shrinks(a: int, b: int)
    requires
        b > 0,
    ensures
        within(tdiv(a, b), if a >= 0 { a } else { -a }),
        a >= 0 ==> tdiv(a, b) >= 0,
        a <= 0 ==> tdiv(a, b) <= 0,
{
    if a >= 0 {
        assert(a / b <= a) by (nonlinear_arith)
            requires
                a >= 0,
                b > 0,
        ;
        assert(a / b >= 0) by (nonlinear_arith)
            requires
                a >= 0,
                b > 0,
        ;
    } else {
        assert((-a) / b <= -a) by (nonlinear_arith)
            requires
                a < 0,
                b > 0,
        ;
        assert((-a) / b >= 0) by (nonlinear_arith)
            requires
                a < 0,
                b > 0,
        ;
    }
}

proof fn lemma_dot_self_bound(v: Point)
    requires
        v.in_range(),
    ensures
        0 <= dot_raw(v, v) <= 3 * 0x1000_0000_0000_0000,
{
    lemma_product_bound(v.x as int, v.x as int);
    lemma_product_bound(v.y as int, v.y as int);
    lemma_product_bound(v.z as int, v.z as int);
    assert(v.x * v.x >= 0 && v.y * v.y >= 0 && v.z * v.z >= 0) by (nonlinear_arith);
}

proof fn lemma_dot_self_positive(v: Point)
    requires
        !v.is_zero(),
    ensures
        dot_raw(v, v) >= 1,
        v.x * v.x <= dot_raw(v, v),
        v.y * v.y <= dot_raw(v, v),
        v.z * v.z <= dot_raw(v, v),
{
    assert(v.x * v.x >= 0 && v.y * v.y >= 0 && v.z * v.z >= 0) by (nonlinear_arith);
    assert(v.x != 0 ==> v.x * v.x >= 1) by (nonlinear_arith);
    assert(v.y != 0 ==> v.y * v.y >= 1) by (nonlinear_arith);
    assert(v.z != 0 ==> v.z * v.z >= 1) by (nonlinear_arith);
}

/// The fine length of a non-zero vector is at least `SCALE` and at least
/// `|c| * SCALE` for each component `c`.
proof fn lemma_fine_length_bounds(v: Point, m: int)
    requires
        !v.is_zero(),
        m == fine_length(v),
        crate::fixed::is_isqrt(dot_raw(v, v) * SCALE * SCALE, m),
    ensures
        m >= SCALE,
        m >= (if v.x >= 0 { v.x as int } else { -v.x }) * SCALE,
        m >= (if v.y >= 0 { v.y as int } else { -v.y }) * SCALE,
        m >= (if v.z >= 0 { v.z as int } else { -v.z }) * SCALE,
{
    lemma_dot_self_positive(v);
    let n = dot_raw(v, v);
    let s = SCALE as int;
    lemma_root_dominates(n * s * s, m, s);
    lemma_root_dominates(n * s * s, m, (if v.x >= 0 { v.x as int } else { -v.x }) * s);
    lemma_root_dominates(n * s * s, m, (if v.y >= 0 { v.y as int } else { -v.y }) * s);
    lemma_root_dominates(n * s * s, m, (if v.z >= 0 { v.z as int } else { -v.z }) * s);
    assert(n * s * s >= s * s) by (nonlinear_arith)
        requires
            n >= 1,
            s > 0,
    ;
    let ax = if v.x >= 0 { v.x as int } else { -v.x };
    let ay = if v.y >= 0 { v.y as int } else { -v.y };
    let az = if v.z >= 0 { v.z as int } else { -v.z };
    assert(ax * ax == v.x * v.x) by (nonlinear_arith)
        requires
            ax == v.x || ax == -v.x,
    ;
    assert(ax * s * (ax * s) <= n * s * s) by (nonlinear_arith)
        requires
            ax * ax == v.x * v.x,
            v.x * v.x <= n,
            s > 0,
    ;
    assert(ay * ay == v.y * v.y) by (nonlinear_arith)
        requires
            ay == v.y || ay == -v.y,
    ;
    assert(ay * s * (ay * s) <= n * s * s) by (nonlinear_arith)
        requires
            ay * ay == v.y * v.y,
            v.y * v.y <= n,
            s > 0,
    ;
    assert(az * az == v.z * v.z) by (nonlinear_arith)
        requires
            az == v.z || az == -v.z,
    ;
    assert(az * s * (az * s) <= n * s * s) by (nonlinear_arith)
        requires
            az * az == v.z * v.z,
            v.z * v.z <= n,
            s > 0,
    ;
}

/// If `k * k <= n` then the integer square root of `n` is at least `k`.
proof fn lemma_root_dominates(n: int, m: int, k: int)
    requires
        crate::fixed::is_isqrt(n, m),
    ensures
        k >= 0 && k * k <= n ==> k <= m,
{
    if k >= 0 && k * k <= n && k > m {
        assert((m + 1) * (m + 1) <= k * k) by (nonlinear_arith)
            requires
                0 <= m + 1 <= k,
        ;
    }
}

/// A unit component `c * SCALE^2 / m` with `m >= |c| * SCALE` stays within `SCALE`.
proof fn lemma_unit_component_bound(c: int, m: int)
    requires
        m >= SCALE,
        m >= (if c >= 0 { c } else { -c }) * SCALE,
    ensures
        within(tdiv(c * SCALE * SCALE, m), SCALE as int),
{
    let s = SCALE as int;
    let ac = if c >= 0 { c } else { -c };
    assert(ac * s * s <= s * m) by (nonlinear_arith)
        requires
            m >= ac * s,
            s > 0,
    ;
    assert((ac * s * s) / m <= s) by (nonlinear_arith)
        requires
            ac * s * s <= s * m,
            m > 0,
            ac * s * s >= 0,
    ;
    if c >= 0 {
        assert(c * s * s == ac * s * s);
    } else {
        assert(-(c * s * s) == ac * s * s) by (nonlinear_arith)
            requires
                ac == -c,
        ;
    }
    assert((ac * s * s) / m >= 0) by (nonlinear_arith)
        requires
            m > 0,
            ac * s * s >= 0,
    ;
}

/// `|v|`.
pub open spec fn abs(v: int) -> int {
    if v >= 0 {
        v
    } else {
        -v
    }
}

/// One component of a unit vector, squared against the fine length `m`:
/// `u^2 m^2 <= c^2 SCALE^4 < (|u| + 1)^2 m^2`, and `|u| <= SCALE`.
proof fn lemma_unit_component_square(c: int, m: int)
    requires
        m >= SCALE,
        m >= abs(c) * SCALE,
    ensures
        tdiv(c * SCALE * SCALE, m) * tdiv(c * SCALE * SCALE, m) * (m * m) <= (c * c) * (SCALE
            * SCALE * SCALE * SCALE),
        (abs(tdiv(c * SCALE * SCALE, m)) + 1) * (abs(tdiv(c * SCALE * SCALE, m)) + 1) * (m * m) > (c
            * c) * (SCALE * SCALE * SCALE * SCALE),
        abs(tdiv(c * SCALE * SCALE, m)) <= SCALE,
{
    let s = SCALE as int;
    lemma_unit_component_bound(c, m);
    let a = abs(c) * s * s;
    let u = tdiv(c * s * s, m);
    let q = a / m;
    assert(abs(c * s * s) == a) by (nonlinear_arith)
        requires
            a == abs(c) * s * s,
            s > 0,
    ;
    assert(abs(u) == q);
    assert(q * m <= a < (q + 1) * m) by (nonlinear_arith)
        requires
            q == a / m,
            m > 0,
            a >= 0,
    ;
    assert(q >= 0) by (nonlinear_arith)
        requires
            q == a / m,
            m > 0,
            a >= 0,
    ;
    assert(a * a == (c * c) * (s * s * s * s)) by (nonlinear_arith)
        requires
            a == abs(c) * s * s,
            abs(c) == c || abs(c) == -c,
    ;
    assert((q * m) * (q * m) <= a * a) by (nonlinear_arith)
        requires
            0 <= q * m <= a,
    ;
    assert(a * a < ((q + 1) * m) * ((q + 1) * m)) by (nonlinear_arith)
        requires
            0 <= a < (q + 1) * m,
    ;
    assert(u * u == q * q) by (nonlinear_arith)
        requires
            abs(u) == q,
            abs(u) == u || abs(u) == -u,
    ;
    assert(u * u * (m * m) == (q * m) * (q * m)) by (nonlinear_arith)
        requires
            u * u == q * q,
    ;
    assert((q + 1) * (q + 1) * (m * m) == ((q + 1) * m) * ((q + 1) * m)) by (nonlinear_arith);
}

/// A unit vector has length one up to rounding: its squared length lies in
/// `[SCALE^2 - 6 SCALE - 3, SCALE^2 + 2 SCALE]` (units of `1 / SCALE^2`)
/// and its fixed-point length in `[SCALE - 4, SCALE]`.
pub proof fn lemma_unit_length(v: Point, u: Point)
    requires
        v.in_range(),
        !v.is_zero(),
        is_unit_of(u, v),
    ensures
        SCALE * SCALE - 6 * SCALE - 3 <= dot_raw(u, u) <= SCALE * SCALE + 2 * SCALE,
        SCALE - 4 <= length_spec(u) <= SCALE,
{
    let s = SCALE as int;
    let n = dot_raw(v, v);
    lemma_dot_self_positive(v);
    crate::fixed::lemma_isqrt_exists(n * s * s);
    let m = fine_length(v);
    lemma_fine_length_bounds(v, m);
    lemma_unit_component_square(v.x as int, m);
    lemma_unit_component_square(v.y as int, m);
    lemma_unit_component_square(v.z as int, m);
    let ux = u.x as int;
    let uy = u.y as int;
    let uz = u.z as int;
    let s4 = s * s * s * s;
    let uu = ux * ux + uy * uy + uz * uz;
    let mm = m * m;
    // upper bound
    assert(uu * mm <= n * s4) by (nonlinear_arith)
        requires
            ux * ux * mm <= (v.x * v.x) * s4,
            uy * uy * mm <= (v.y * v.y) * s4,
            uz * uz * mm <= (v.z * v.z) * s4,
            uu == ux * ux + uy * uy + uz * uz,
            n == v.x * v.x + v.y * v.y + v.z * v.z,
    ;
    assert(n * s4 < s * s * ((m + 1) * (m + 1))) by (nonlinear_arith)
        requires
            n * s * s < (m + 1) * (m + 1),
            s4 == s * s * s * s,
            s > 0,
    ;
    assert(uu <= s * s + 2 * s) by (nonlinear_arith)
        requires
            uu * mm < s * s * ((m + 1) * (m + 1)),
            mm == m * m,
            m >= s,
            s > 0,
    {
        if uu > s * s + 2 * s {
            assert(uu >= (s + 1) * (s + 1));
            assert((s + 1) * m >= s * (m + 1));
            assert(((s + 1) * m) * ((s + 1) * m) >= (s * (m + 1)) * (s * (m + 1)));
            assert(uu * mm >= (s + 1) * (s + 1) * mm);
        }
    }
    // lower bound
    let ax = abs(ux);
    let ay = abs(uy);
    let az = abs(uz);
    let w = (ax + 1) * (ax + 1) + (ay + 1) * (ay + 1) + (az + 1) * (az + 1);
    assert(w * mm > n * s4) by (nonlinear_arith)
        requires
            (ax + 1) * (ax + 1) * mm > (v.x * v.x) * s4,
            (ay + 1) * (ay + 1) * mm > (v.y * v.y) * s4,
            (az + 1) * (az + 1) * mm > (v.z * v.z) * s4,
            w == (ax + 1) * (ax + 1) + (ay + 1) * (ay + 1) + (az + 1) * (az + 1),
            n == v.x * v.x + v.y * v.y + v.z * v.z,
    ;
    assert(n * s4 >= s * s * mm) by (nonlinear_arith)
        requires
            mm <= n * s * s,
            s4 == s * s * s * s,
            s > 0,
    ;
    assert(mm > 0) by (nonlinear_arith)
        requires
            mm == m * m,
            m >= s,
            s > 0,
    ;
    assert(w > s * s) by (nonlinear_arith)
        requires
            w * mm > s * s * mm,
            mm > 0,
    ;
    assert(w == uu + 2 * (ax + ay + az) + 3) by (nonlinear_arith)
        requires
            w == (ax + 1) * (ax + 1) + (ay + 1) * (ay + 1) + (az + 1) * (az + 1),
            uu == ux * ux + uy * uy + uz * uz,
            ax == ux || ax == -ux,
            ay == uy || ay == -uy,
            az == uz || az == -uz,
    ;
    assert(uu >= s * s - 6 * s - 3);
    // the length
    assert(uu >= 0) by (nonlinear_arith)
        requires
            uu == ux * ux + uy * uy + uz * uz,
    ;
    crate::fixed::lemma_isqrt_exists(uu);
    let l = isqrt(uu);
    crate::fixed::lemma_square_le(l, s + 1);
    assert(l <= s) by (nonlinear_arith)
        requires
            l * l <= uu,
            uu <= s * s + 2 * s,
            l >= 0,
            s > 0,
    {
        if l > s {
            assert(l * l >= (s + 1) * (s + 1));
        }
    }
    assert((s - 4) * (s - 4) <= uu) by (nonlinear_arith)
        requires
            uu >= s * s - 6 * s - 3,
            s == 65536,
    ;
    lemma_root_dominates(uu, l, s - 4);
}

/// The dot product is commutative.
pub proof fn lemma_dot_commutes(a: Point, b: Point)
    ensures
        dot_spec(a, b) == dot_spec(b, a),
        dot_raw(a, b) == dot_raw(b, a),
{
    assert(dot_raw(a, b) == dot_raw(b, a)) by (nonlinear_arith);
}

/// Truncating division commutes with negation.
pub proof fn lemma_tdiv_neg(v: int, d: int)
    requires
        d > 0,
    ensures
        tdiv(-v, d) == -tdiv(v, d),
{
    if v == 0 {
        assert(0int / d == 0);
    }
}

/// The cross product is anti-commutative: swapping its arguments negates it.
pub proof fn lemma_cross_anticommutes(a: Point, b: Point)
    requires
        a.in_range(),
        b.in_range(),
    ensures
        cross_spec(b, a).x == -cross_spec(a, b).x,
        cross_spec(b, a).y == -cross_spec(a, b).y,
        cross_spec(b, a).z == -cross_spec(a, b).z,
{
    let s = SCALE as int;
    assert(b.y * a.z - b.z * a.y == -(a.y * b.z - a.z * b.y)) by (nonlinear_arith);
    assert(b.z * a.x - b.x * a.z == -(a.z * b.x - a.x * b.z)) by (nonlinear_arith);
    assert(b.x * a.y - b.y * a.x == -(a.x * b.y - a.y * b.x)) by (nonlinear_arith);
    lemma_tdiv_neg(a.y * b.z - a.z * b.y, s);
    lemma_tdiv_neg(a.z * b.x - a.x * b.z, s);
    lemma_tdiv_neg(a.x * b.y - a.y * b.x, s);
    lemma_cross_component_range(a, b);
    lemma_cross_component_range(b, a);
}

proof fn lemma_cross_component_range(a: Point, b: Point)
    requires
        a.in_range(),
        b.in_range(),
    ensures
        within(tdiv(a.y * b.z - a.z * b.y, SCALE as int), 0x2000_0000_0000),
        within(tdiv(a.z * b.x - a.x * b.z, SCALE as int), 0x2000_0000_0000),
        within(tdiv(a.x * b.y - a.y * b.x, SCALE as int), 0x2000_0000_0000),
{
    lemma_product_bound(a.y as int, b.z as int);
    lemma_product_bound(a.z as int, b.y as int);
    lemma_product_bound(a.z as int, b.x as int);
    lemma_product_bound(a.x as int, b.z as int);
    lemma_product_bound(a.x as int, b.y as int);
    lemma_product_bound(a.y as int, b.x as int);
    lemma_tdiv_bound(a.y * b.z - a.z * b.y);
    lemma_tdiv_bound(a.z * b.x - a.x * b.z);
    lemma_tdiv_bound(a.x * b.y - a.y * b.x);
}

proof fn lemma_tdiv_bound(v: int)
    requires
        within(v, 0x2000_0000_0000_0000),
    ensures
        within(tdiv(v, SCALE as int), 0x2000_0000_0000),
{
    if v >= 0 {
        assert(v / 65536 <= 0x2000_0000_0000) by (nonlinear_arith)
            requires
                0 <= v <= 0x2000_0000_0000_0000,
        ;
        assert(v / 65536 >= 0) by (nonlinear_arith)
            requires
                0 <= v,
        ;
    } else {
        assert((-v) / 65536 <= 0x2000_0000_0000) by (nonlinear_arith)
            requires
                0 <= -v <= 0x2000_0000_0000_0000,
        ;
        assert((-v) / 65536 >= 0) by (nonlinear_arith)
            requires
                0 <= -v,
        ;
    }
}

/// Truncation by `SCALE` leaves a remainder smaller than `SCALE`:
/// `|v - SCALE * tdiv(v, SCALE)| < SCALE`.
proof fn lemma_tdiv_remainder(v: int)
    ensures
        abs(v - SCALE * tdiv(v, SCALE as int)) < SCALE,
{
    let s = SCALE as int;
    if v >= 0 {
        assert(0 <= v - s * (v / s) < s) by (nonlinear_arith)
            requires
                v >= 0,
                s == 65536,
        ;
    } else {
        assert(0 <= (-v) - s * ((-v) / s) < s) by (nonlinear_arith)
            requires
                v < 0,
                s == 65536,
        ;
    }
}

/// The cross product is orthogonal to its first argument up to rounding:
/// its exact dot product with `a` is at most `|ax| + |ay| + |az|` units of
/// `1 / SCALE^2`.
pub proof fn lemma_cross_orthogonal(a: Point, b: Point)
    requires
        a.in_range(),
        b.in_range(),
    ensures
        abs(dot_raw(cross_spec(a, b), a)) <= abs(a.x as int) + abs(a.y as int) + abs(a.z as int),
{
    let s = SCALE as int;
    lemma_cross_component_range(a, b);
    let ex = a.y * b.z - a.z * b.y;
    let ey = a.z * b.x - a.x * b.z;
    let ez = a.x * b.y - a.y * b.x;
    let c = cross_spec(a, b);
    assert(c.x == tdiv(ex, s) && c.y == tdiv(ey, s) && c.z == tdiv(ez, s));
    lemma_tdiv_remainder(ex);
    lemma_tdiv_remainder(ey);
    lemma_tdiv_remainder(ez);
    assert(ex * a.x + ey * a.y + ez * a.z == 0) by (nonlinear_arith)
        requires
            ex == a.y * b.z - a.z * b.y,
            ey == a.z * b.x - a.x * b.z,
            ez == a.x * b.y - a.y * b.x,
    ;
    lemma_orthogonal_rounding(ex, ey, ez, c.x as int, c.y as int, c.z as int, a.x as int, a.y as int, a.z as int);
}

/// The cross product is orthogonal to its second argument up to rounding.
pub proof fn lemma_cross_orthogonal_second(a: Point, b: Point)
    requires
        a.in_range(),
        b.in_range(),
    ensures
        abs(dot_raw(cross_spec(a, b), b)) <= abs(b.x as int) + abs(b.y as int) + abs(b.z as int),
{
    let s = SCALE as int;
    lemma_cross_component_range(a, b);
    let ex = a.y * b.z - a.z * b.y;
    let ey = a.z * b.x - a.x * b.z;
    let ez = a.x * b.y - a.y * b.x;
    let c = cross_spec(a, b);
    assert(c.x == tdiv(ex, s) && c.y == tdiv(ey, s) && c.z == tdiv(ez, s));
    lemma_tdiv_remainder(ex);
    lemma_tdiv_remainder(ey);
    lemma_tdiv_remainder(ez);
    assert(ex * b.x + ey * b.y + ez * b.z == 0) by (nonlinear_arith)
        requires
            ex == a.y * b.z - a.z * b.y,
            ey == a.z * b.x - a.x * b.z,
            ez == a.x * b.y - a.y * b.x,
    ;
    lemma_orthogonal_rounding(ex, ey, ez, c.x as int, c.y as int, c.z as int, b.x as int, b.y as int, b.z as int);
}

/// If the exact vector `e` is orthogonal to `w`, its truncation `c`
/// (`|e - SCALE * c| < SCALE` per component) has `|c . w| <= |w|_1`.
proof fn lemma_orthogonal_rounding(
    ex: int,
    ey: int,
    ez: int,
    cx: int,
    cy: int,
    cz: int,
    wx: int,
    wy: int,
    wz: int,
)
    requires
        ex * wx + ey * wy + ez * wz == 0,
        abs(ex - SCALE * cx) < SCALE,
        abs(ey - SCALE * cy) < SCALE,
        abs(ez - SCALE * cz) < SCALE,
    ensures
        abs(cx * wx + cy * wy + cz * wz) <= abs(wx) + abs(wy) + abs(wz),
{
    let s = SCALE as int;
    let rx = ex - s * cx;
    let ry = ey - s * cy;
    let rz = ez - s * cz;
    assert(rx * wx == ex * wx - s * (cx * wx)) by (nonlinear_arith)
        requires
            rx == ex - s * cx,
    ;
    assert(ry * wy == ey * wy - s * (cy * wy)) by (nonlinear_arith)
        requires
            ry == ey - s * cy,
    ;
    assert(rz * wz == ez * wz - s * (cz * wz)) by (nonlinear_arith)
        requires
            rz == ez - s * cz,
    ;
    assert(s * (cx * wx + cy * wy + cz * wz) == s * (cx * wx) + s * (cy * wy) + s * (cz * wz))
        by (nonlinear_arith);
    assert(s * (cx * wx + cy * wy + cz * wz) == -(rx * wx + ry * wy + rz * wz));
    assert(abs(rx * wx) <= s * abs(wx)) by (nonlinear_arith)
        requires
            abs(rx) < s,
    ;
    assert(abs(ry * wy) <= s * abs(wy)) by (nonlinear_arith)
        requires
            abs(ry) < s,
    ;
    assert(abs(rz * wz) <= s * abs(wz)) by (nonlinear_arith)
        requires
            abs(rz) < s,
    ;
    let d = cx * wx + cy * wy + cz * wz;
    assert(abs(s * d) <= s * (abs(wx) + abs(wy) + abs(wz)));
    assert(abs(d) <= abs(wx) + abs(wy) + abs(wz)) by (nonlinear_arith)
        requires
            abs(s * d) <= s * (abs(wx) + abs(wy) + abs(wz)),
            s > 0,
    ;
}

} // verus!
