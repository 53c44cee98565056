//! 8-bit RGB colors with saturating channel arithmetic.

use vstd::prelude::*;
use crate::fixed::{SCALE, tdiv, div_trunc};

verus! {

/// A color of three 8-bit channels.
#[derive(Clone, Copy, Debug, PartialEq, Eq, Structural)]
pub struct Color {
    pub r: u8,
    pub g: u8,
    pub b: u8,
}

/// `v` clamped to the channel range `[0, 255]`.
pub open spec fn sat(v: int) -> int {
    if v < 0 {
        0
    } else if v > 255 {
        255
    } else {
        v
    }
}

/// Clamps an integer to a channel value.
pub fn saturate(v: i128) -> (r: u8)
    ensures
        r == sat(v as int),
{
    if v < 0 {
        0
    } else if v > 255 {
        255
    } else {
        v as u8
    }
}

/// `c * k`, exactly.
fn product(c: u8, k: i64) -> (r: i128)
    ensures
        r == c * k,
        crate::point::within(r as int, 0x100 * 0x8000_0000_0000_0000int),
{
    assert(crate::point::within(c * k, 0x100 * 0x8000_0000_0000_0000int)) by (nonlinear_arith)
        requires
            0 <= c <= 255,
            i64::MIN <= k <= i64::MAX,
    ;
    (c as i128) * (k as i128)
}

impl Color {
    pub fn new(r: u8, g: u8, b: u8) -> (c: Color)
        ensures
            c.r == r && c.g == g && c.b == b,
    {
        Color { r, g, b }
    }

    /// Channel-wise sum, saturating at 255.
    pub fn add(&self, other: &Color) -> (c: Color)
        ensures
            c.r == sat(self.r + other.r),
            c.g == sat(self.g + other.g),
            c.b == sat(self.b + other.b),
    {
        Color {
            r: saturate(self.r as i128 + other.r as i128),
            g: saturate(self.g as i128 + other.g as i128),
            b: saturate(self.b as i128 + other.b as i128),
        }
    }

    /// Channel-wise difference, saturating at 0.
    pub fn sub(&self, other: &Color) -> (c: Color)
        ensures
            c.r == sat(self.r - other.r),
            c.g == sat(self.g - other.g),
            c.b == sat(self.b - other.b),
    {
        Color {
            r: saturate(self.r as i128 - other.r as i128),
            g: saturate(self.g as i128 - other.g as i128),
            b: saturate(self.b as i128 - other.b as i128),
        }
    }

    /// Channel-wise product, saturating at 255.
    pub fn mul(&self, other: &Color) -> (c: Color)
        ensures
            c.r == sat(self.r * other.r),
            c.g == sat(self.g * other.g),
            c.b == sat(self.b * other.b),
    {
        Color {
            r: saturate(product(self.r, other.r as i64)),
            g: saturate(product(self.g, other.g as i64)),
            b: saturate(product(self.b, other.b as i64)),
        }
    }

    /// Every channel times `k`, saturating at 255.
    pub fn mul_scalar(&self, k: u8) -> (c: Color)
        ensures
            c.r == sat(self.r * k),
            c.g == sat(self.g * k),
            c.b == sat(self.b * k),
    {
        Color {
            r: saturate(product(self.r, k as i64)),
            g: saturate(product(self.g, k as i64)),
            b: saturate(product(self.b, k as i64)),
        }
    }

    /// Every channel times the fixed-point factor `k`, truncated and clamped
    /// to the channel range.
    pub fn scale(&self, k: i64) -> (c: Color)
        ensures
            c.r == sat(tdiv(self.r * k, SCALE as int)),
            c.g == sat(tdiv(self.g * k, SCALE as int)),
            c.b == sat(tdiv(self.b * k, SCALE as int)),
    {
        let s = SCALE as i128;
        Color {
            r: saturate(div_trunc(product(self.r, k as i64), s)),
            g: saturate(div_trunc(product(self.g, k as i64), s)),
            b: saturate(div_trunc(product(self.b, k as i64), s)),
        }
    }

    /// Channel-wise quotient; no channel of `other` is zero.
    pub fn div(&self, other: &Color) -> (c: Color)
        requires
            other.r != 0 && other.g != 0 && other.b != 0,
        ensures
            c.r == self.r / other.r,
            c.g == self.g / other.g,
            c.b == self.b / other.b,
    {
        Color { r: self.r / other.r, g: self.g / other.g, b: self.b / other.b }
    }

    /// Every channel divided by a non-zero `k`.
    pub fn div_scalar(&self, k: u8) -> (c: Color)
        requires
            k != 0,
        ensures
            c.r == self.r / k,
            c.g == self.g / k,
            c.b == self.b / k,
    {
        Color { r: self.r / k, g: self.g / k, b: self.b / k }
    }
}

} // verus!
