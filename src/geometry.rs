//! Rectangles and the exact fractions that place vertices on screen and in
//! the atlas.

use vstd::prelude::*;

verus! {

/// A rectangle of atlas pixels: columns `x .. x + w` and rows `y .. y + h`.
#[derive(Clone, Copy, Debug, PartialEq, Eq, Structural)]
pub struct AtlasRect {
    pub x: u32,
    pub y: u32,
    pub w: u32,
    pub h: u32,
}

impl AtlasRect {
    /// One past the last column.
    pub open spec fn right(self) -> int {
        self.x + self.w
    }

    /// One past the last row.
    pub open spec fn bottom(self) -> int {
        self.y + self.h
    }

    /// The rectangle lies inside a `width` by `height` image.
    pub open spec fn fits_in(self, width: int, height: int) -> bool {
        self.right() <= width && self.bottom() <= height
    }

    /// The pixel at column `px`, row `py` belongs to the rectangle.
    pub open spec fn contains(self, px: int, py: int) -> bool {
        self.x <= px < self.right() && self.y <= py < self.bottom()
    }
}

/// Two atlas rectangles share no pixel.
pub open spec fn rects_disjoint(a: AtlasRect, b: AtlasRect) -> bool {
    a.right() <= b.x || b.right() <= a.x || a.bottom() <= b.y || b.bottom() <= a.y
}

/// A rectangle of screen pixels, from the corner `(min_x, min_y)` to the
/// corner `(max_x, max_y)`; it may lie partly off screen.
#[derive(Clone, Copy, Debug, PartialEq, Eq, Structural)]
pub struct ScreenRect {
    pub min_x: i32,
    pub min_y: i32,
    pub max_x: i32,
    pub max_y: i32,
}

/// The exact rational number `num / den`.
#[derive(Clone, Copy, Debug, PartialEq, Eq, Structural)]
pub struct Fraction {
    pub num: i64,
    pub den: u32,
}

impl Fraction {
    /// The fraction stands for the integer `k`.
    pub open spec fn is_int(self, k: int) -> bool {
        self.den > 0 && self.num == k * self.den
    }
}

/// The normalized device coordinate of pixel `pixel` on an axis of `dim`
/// pixels: `(pixel / dim - 1/2) * 2`, written as `(2 * pixel - dim) / dim`.
pub open spec fn ndc_of(pixel: int, dim: nat) -> Fraction {
    Fraction { num: (2 * pixel - dim) as i64, den: dim as u32 }
}

/// The texture coordinate of atlas pixel `pixel` on an axis of `dim` pixels:
/// `pixel / dim`.
pub open spec fn uv_of(pixel: int, dim: nat) -> Fraction {
    Fraction { num: pixel as i64, den: dim as u32 }
}

/// Converts a pixel coordinate to a normalized device coordinate.
pub fn to_ndc(pixel: i32, dim: u32) -> (r: Fraction)
    ensures
        r == ndc_of(pixel as int, dim as nat),
        r.num == 2 * pixel - dim,
        r.den == dim,
{
    Fraction { num: 2 * (pixel as i64) - (dim as i64), den: dim }
}

/// Converts an atlas pixel coordinate to a texture coordinate.
pub fn to_uv(pixel: u32, dim: u32) -> (r: Fraction)
    ensures
        r == uv_of(pixel as int, dim as nat),
        r.num == pixel,
        r.den == dim,
{
    Fraction { num: pixel as i64, den: dim }
}

} // verus!
