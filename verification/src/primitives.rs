//! Plain geometric and color values shared by the whole crate.

use vstd::prelude::*;

verus! {

/// An RGBA pixel value with straight (non-premultiplied) alpha.
#[derive(Clone, Copy, PartialEq, Eq, Structural, Debug)]
pub struct Color {
    pub r: u8,
    pub g: u8,
    pub b: u8,
    pub a: u8,
}

impl Color {
    /// The canvas default: fully transparent black.
    pub open spec fn transparent_spec() -> Color {
        (Color { r: 0, g: 0, b: 0, a: 0 })
    }

    pub fn new(r: u8, g: u8, b: u8, a: u8) -> (c: Color)
        ensures
            c == (Color { r, g, b, a }),
    {
        Color { r, g, b, a }
    }

    pub fn transparent() -> (c: Color)
        ensures
            c == Color::transparent_spec(),
    {
        Color { r: 0, g: 0, b: 0, a: 0 }
    }

    /// One straight-alpha channel of `over`: `t` is the destination's
    /// contribution weight `da * (255 - sa) / 255`.
    pub open spec fn over_channel_spec(cs: int, sa: int, cd: int, t: int, outa: int) -> int {
        (cs * sa + cd * t) / outa
    }

    /// Porter-Duff `over` with integer arithmetic. Compositing onto a
    /// fully transparent destination returns the source unchanged, so a
    /// buffer merged onto a cleared region restores it byte for byte.
    pub open spec fn over_spec(self, dst: Color) -> Color {
        if dst.a == 0 {
            self
        } else if self.a == 0 {
            dst
        } else {
            let sa = self.a as int;
            let t = (dst.a as int * (255 - sa)) / 255;
            let outa = sa + t;
            (Color {
                r: Color::over_channel_spec(self.r as int, sa, dst.r as int, t, outa) as u8,
                g: Color::over_channel_spec(self.g as int, sa, dst.g as int, t, outa) as u8,
                b: Color::over_channel_spec(self.b as int, sa, dst.b as int, t, outa) as u8,
                a: outa as u8,
            })
        }
    }

    /// Composites `self` over `dst`.
    pub fn over(self, dst: Color) -> (c: Color)
        ensures
            c == self.over_spec(dst),
    {
        if dst.a == 0 {
            self
        } else if self.a == 0 {
            dst
        } else {
            let sa: u32 = self.a as u32;
            proof {
                lemma_byte_mul_bound(dst.a as int, 255 - sa as int);
            }
            let t: u32 = (dst.a as u32 * (255 - sa)) / 255;
            proof {
                assert(t <= 255 - sa) by (nonlinear_arith)
                    requires
                        t == (dst.a as int * (255 - sa as int)) / 255,
                        1 <= sa <= 255,
                        dst.a <= 255,
                ;
                lemma_byte_mul_bound(self.r as int, sa as int);
                lemma_byte_mul_bound(self.g as int, sa as int);
                lemma_byte_mul_bound(self.b as int, sa as int);
                lemma_byte_mul_bound(dst.r as int, t as int);
                lemma_byte_mul_bound(dst.g as int, t as int);
                lemma_byte_mul_bound(dst.b as int, t as int);
            }
            let outa: u32 = sa + t;
            let r: u32 = (self.r as u32 * sa + dst.r as u32 * t) / outa;
            let g: u32 = (self.g as u32 * sa + dst.g as u32 * t) / outa;
            let b: u32 = (self.b as u32 * sa + dst.b as u32 * t) / outa;
            proof {
                lemma_over_channel_bounded(self.r as int, sa as int, dst.r as int, t as int);
                lemma_over_channel_bounded(self.g as int, sa as int, dst.g as int, t as int);
                lemma_over_channel_bounded(self.b as int, sa as int, dst.b as int, t as int);
            }
            Color { r: r as u8, g: g as u8, b: b as u8, a: outa as u8 }
        }
    }
}

/// The product of two byte-sized values stays under `2^16`.
proof fn lemma_byte_mul_bound(x: int, y: int)
    requires
        0 <= x <= 255,
        0 <= y <= 255,
    ensures
        0 <= x * y <= 65025,
{
    assert(0 <= x * y <= 65025) by (nonlinear_arith)
        requires
            0 <= x <= 255,
            0 <= y <= 255,
    ;
}

/// Each composited channel stays within one byte: the numerator is at
/// most `255 * (sa + t)`, so dividing by `sa + t` cannot exceed 255.
proof fn lemma_over_channel_bounded(cs: int, sa: int, cd: int, t: int)
    requires
        0 <= cs <= 255,
        1 <= sa <= 255,
        0 <= cd <= 255,
        0 <= t <= 255,
    ensures
        0 <= Color::over_channel_spec(cs, sa, cd, t, sa + t) <= 255,
{
    assert(0 <= (cs * sa + cd * t) / (sa + t) <= 255) by (nonlinear_arith)
        requires
            0 <= cs <= 255,
            1 <= sa <= 255,
            0 <= cd <= 255,
            0 <= t <= 255,
    ;
}

/// An axis-aligned rectangle in canvas coordinates (top-left corner,
/// width and height in pixels).
#[derive(Clone, Copy, PartialEq, Eq, Structural, Debug)]
pub struct Rect {
    pub x: u16,
    pub y: u16,
    pub w: u16,
    pub h: u16,
}

impl Rect {
    /// A rectangle that selects nothing.
    pub open spec fn is_empty(self) -> bool {
        self.w == 0 || self.h == 0
    }

    /// Whether the point (px, py) lies inside the rectangle.
    pub open spec fn contains_spec(self, px: int, py: int) -> bool {
        &&& self.x <= px < self.x + self.w
        &&& self.y <= py < self.y + self.h
    }

    pub fn new(x: u16, y: u16, w: u16, h: u16) -> (r: Rect)
        ensures
            r == (Rect { x, y, w, h }),
    {
        Rect { x, y, w, h }
    }

    pub fn contains(&self, px: i64, py: i64) -> (b: bool)
        ensures
            b == self.contains_spec(px as int, py as int),
    {
        px >= self.x as i64 && px < self.x as i64 + self.w as i64 && py >= self.y as i64 && py
            < self.y as i64 + self.h as i64
    }
}

/// A compass direction for camera movement requests.
#[derive(Clone, Copy, PartialEq, Eq, Structural, Debug)]
pub enum Direction {
    Up,
    Down,
    Left,
    Right,
}

} // verus!
