//! A detached, movable pixel buffer produced by cut or copy.

use vstd::prelude::*;
use crate::bitmap::Bitmap;

verus! {

/// Adds with saturation at the `i32` range.
pub open spec fn sat_add_spec(a: int, b: int) -> int {
    if a + b > 0x7fffffff {
        0x7fffffff
    } else if a + b < -0x80000000 {
        -0x80000000
    } else {
        a + b
    }
}

/// Saturating addition on `i32`.
pub fn sat_add(a: i32, b: i32) -> (r: i32)
    ensures
        r as int == sat_add_spec(a as int, b as int),
{
    let s: i64 = a as i64 + b as i64;
    if s > 0x7fffffff {
        0x7fffffff
    } else if s < -0x80000000 {
        -0x80000000i32
    } else {
        s as i32
    }
}

/// A standalone bitmap with a placement position in canvas coordinates.
///
/// The content is immutable after creation; only the placement moves.
/// The placement may leave the canvas: pixels that land outside the
/// bounds are dropped when the image is merged back. Positions saturate
/// at the `i32` range instead of wrapping.
#[derive(Debug)]
pub struct FreeImage {
    bitmap: Bitmap,
    x: i32,
    y: i32,
}

impl FreeImage {
    pub closed spec fn bm(self) -> Bitmap {
        self.bitmap
    }

    pub closed spec fn px(self) -> int {
        self.x as int
    }

    pub closed spec fn py(self) -> int {
        self.y as int
    }

    pub open spec fn wf(self) -> bool {
        self.bm().wf()
    }

    pub fn new(bitmap: Bitmap, x: i32, y: i32) -> (img: FreeImage)
        requires
            bitmap.wf(),
        ensures
            img.wf(),
            img.bm() == bitmap,
            img.px() == x,
            img.py() == y,
    {
        FreeImage { bitmap, x, y }
    }

    pub fn bitmap(&self) -> (bm: &Bitmap)
        ensures
            *bm == self.bm(),
    {
        &self.bitmap
    }

    pub fn x(&self) -> (x: i32)
        ensures
            x as int == self.px(),
    {
        self.x
    }

    pub fn y(&self) -> (y: i32)
        ensures
            y as int == self.py(),
    {
        self.y
    }

    /// Moves the placement rectangle so its top-left corner is (x, y);
    /// the content is untouched.
    pub fn place_at(&mut self, x: i32, y: i32)
        ensures
            final(self).bm() == old(self).bm(),
            final(self).px() == x,
            final(self).py() == y,
    {
        self.x = x;
        self.y = y;
    }

    /// Translates the placement rectangle by (dx, dy), saturating at the
    /// coordinate range; the content is untouched.
    pub fn move_by(&mut self, dx: i32, dy: i32)
        ensures
            final(self).bm() == old(self).bm(),
            final(self).px() == sat_add_spec(old(self).px(), dx as int),
            final(self).py() == sat_add_spec(old(self).py(), dy as int),
    {
        self.x = sat_add(self.x, dx);
        self.y = sat_add(self.y, dy);
    }
}

} // verus!
