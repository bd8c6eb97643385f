//! Fixed-size 2D grid of RGBA pixels, stored row-major.

use vstd::prelude::*;
use crate::primitives::{Color, Rect};

verus! {

/// Proves that a row-major index stays inside the buffer and that the
/// buffer size itself fits the address space.
pub proof fn lemma_index_bound(x: int, y: int, w: int, h: int)
    requires
        0 <= x < w,
        0 <= y < h,
        w <= 0xffff,
        h <= 0xffff,
    ensures
        0 <= y * w + x < w * h,
        w * h <= 0xffff * 0xffff,
{
    assert(0 <= y * w + x < w * h && w * h <= 0xffff * 0xffff) by (nonlinear_arith)
        requires
            0 <= x < w,
            0 <= y < h,
            w <= 0xffff,
            h <= 0xffff,
    ;
}

/// Two distinct coordinate pairs never share a row-major index.
pub proof fn lemma_index_injective(x1: int, y1: int, x2: int, y2: int, w: int)
    requires
        0 <= x1 < w,
        0 <= y1,
        0 <= x2 < w,
        0 <= y2,
        y1 * w + x1 == y2 * w + x2,
    ensures
        x1 == x2 && y1 == y2,
{
    assert(x1 == x2 && y1 == y2) by (nonlinear_arith)
        requires
            0 <= x1 < w,
            0 <= y1,
            0 <= x2 < w,
            0 <= y2,
            y1 * w + x1 == y2 * w + x2,
    ;
}

/// A mapping from (x, y) to an RGBA value over a fixed width and height.
///
/// The buffer always holds exactly `width * height` pixels in row-major
/// order; both dimensions are at least 1.
#[derive(Debug)]
pub struct Bitmap {
    width: u16,
    height: u16,
    pixels: Vec<Color>,
}

impl Bitmap {
    /// Width as a mathematical integer.
    pub closed spec fn wd(self) -> int {
        self.width as int
    }

    /// Height as a mathematical integer.
    pub closed spec fn ht(self) -> int {
        self.height as int
    }

    /// The pixel buffer, row-major.
    pub closed spec fn pix(self) -> Seq<Color> {
        self.pixels@
    }

    /// Structural invariant: positive dimensions that fit in `u16`, and a
    /// buffer of exactly `width * height` pixels.
    pub open spec fn wf(self) -> bool {
        &&& 1 <= self.wd() <= 0xffff
        &&& 1 <= self.ht() <= 0xffff
        &&& self.pix().len() == self.wd() * self.ht()
    }

    /// Whether (x, y) lies on the bitmap.
    pub open spec fn in_bounds(self, x: int, y: int) -> bool {
        0 <= x < self.wd() && 0 <= y < self.ht()
    }

    /// The pixel at (x, y).
    pub open spec fn at(self, x: int, y: int) -> Color {
        self.pix()[y * self.wd() + x]
    }

    /// Same width and height as another bitmap.
    pub open spec fn same_dims(self, other: Bitmap) -> bool {
        self.wd() == other.wd() && self.ht() == other.ht()
    }

    /// A fresh bitmap with every pixel set to `color`.
    pub fn new(width: u16, height: u16, color: Color) -> (bm: Bitmap)
        requires
            width >= 1,
            height >= 1,
        ensures
            bm.wf(),
            bm.wd() == width,
            bm.ht() == height,
            forall|x: int, y: int| bm.in_bounds(x, y) ==> bm.at(x, y) == color,
    {
        proof {
            lemma_index_bound(0, 0, width as int, height as int);
        }
        let n: usize = width as usize * height as usize;
        let mut pixels: Vec<Color> = Vec::new();
        while pixels.len() < n
            invariant
                pixels@.len() <= n,
                n == width as int * height as int,
                forall|i: int| 0 <= i < pixels@.len() ==> pixels@[i] == color,
            decreases n - pixels@.len(),
        {
            pixels.push(color);
        }
        let bm = Bitmap { width, height, pixels };
        proof {
            assert forall|x: int, y: int| bm.in_bounds(x, y) implies bm.at(x, y) == color by {
                lemma_index_bound(x, y, width as int, height as int);
            }
        }
        bm
    }

    pub fn width(&self) -> (w: u16)
        ensures
            w as int == self.wd(),
    {
        self.width
    }

    pub fn height(&self) -> (h: u16)
        ensures
            h as int == self.ht(),
    {
        self.height
    }

    /// How many pixels the buffer holds.
    pub fn pixel_count(&self) -> (n: usize)
        ensures
            n == self.pix().len(),
    {
        self.pixels.len()
    }

    pub fn pixel(&self, x: u16, y: u16) -> (c: Color)
        requires
            self.wf(),
            self.in_bounds(x as int, y as int),
        ensures
            c == self.at(x as int, y as int),
    {
        proof {
            lemma_index_bound(x as int, y as int, self.wd(), self.ht());
        }
        let idx: usize = y as usize * self.width as usize + x as usize;
        self.pixels[idx]
    }

    /// Writes `color` at (x, y); every other pixel is untouched.
    pub fn set_pixel(&mut self, x: u16, y: u16, color: Color)
        requires
            old(self).wf(),
            old(self).in_bounds(x as int, y as int),
        ensures
            final(self).wf(),
            final(self).same_dims(*old(self)),
            final(self).at(x as int, y as int) == color,
            forall|xx: int, yy: int|
                old(self).in_bounds(xx, yy) && !(xx == x as int && yy == y as int)
                    ==> final(self).at(xx, yy) == old(self).at(xx, yy),
    {
        proof {
            lemma_index_bound(x as int, y as int, self.wd(), self.ht());
        }
        let idx: usize = y as usize * self.width as usize + x as usize;
        self.pixels.set(idx, color);
        proof {
            assert forall|xx: int, yy: int|
                old(self).in_bounds(xx, yy) && !(xx == x as int && yy == y as int) implies self.at(
                xx,
                yy,
            ) == old(self).at(xx, yy) by {
                lemma_index_bound(xx, yy, self.wd(), self.ht());
                if yy * self.wd() + xx == y as int * self.wd() + x as int {
                    lemma_index_injective(xx, yy, x as int, y as int, self.wd());
                }
            }
        }
    }

    /// Sets every pixel to `color`, keeping the dimensions.
    pub fn fill(&mut self, color: Color)
        requires
            old(self).wf(),
        ensures
            final(self).wf(),
            final(self).same_dims(*old(self)),
            forall|x: int, y: int| final(self).in_bounds(x, y) ==> final(self).at(x, y) == color,
    {
        let repl = Bitmap::new(self.width, self.height, color);
        *self = repl;
    }

    /// Reallocates to `nw` x `nh`, keeping the pixel at every coordinate
    /// both sizes share (origin-anchored) and filling new area with
    /// transparent.
    #[verifier::loop_isolation(false)]
    pub fn resized(&self, nw: u16, nh: u16) -> (bm: Bitmap)
        requires
            self.wf(),
            nw >= 1,
            nh >= 1,
        ensures
            bm.wf(),
            bm.wd() == nw,
            bm.ht() == nh,
            forall|x: int, y: int|
                bm.in_bounds(x, y) ==> bm.at(x, y) == (if self.in_bounds(x, y) {
                    self.at(x, y)
                } else {
                    Color::transparent_spec()
                }),
    {
        proof {
            lemma_index_bound(0, 0, nw as int, nh as int);
        }
        let ghost expected = |x: int, y: int|
            if self.in_bounds(x, y) {
                self.at(x, y)
            } else {
                Color::transparent_spec()
            };
        let mut pixels: Vec<Color> = Vec::new();
        let mut y: u16 = 0;
        while y < nh
            invariant
                self.wf(),
                nw >= 1,
                nh >= 1,
                y <= nh,
                pixels@.len() == y as int * nw as int,
                forall|xx: int, yy: int|
                    0 <= xx < nw as int && 0 <= yy < y as int ==> #[trigger] pixels@[yy
                        * nw as int + xx] == expected(xx, yy),
            decreases nh as int - y as int,
        {
            let mut x: u16 = 0;
            while x < nw
                invariant
                    self.wf(),
                    nw >= 1,
                    nh >= 1,
                    y < nh,
                    x <= nw,
                    pixels@.len() == y as int * nw as int + x as int,
                    forall|xx: int, yy: int|
                        0 <= xx < nw as int && 0 <= yy < y as int ==> #[trigger] pixels@[yy
                            * nw as int + xx] == expected(xx, yy),
                    forall|xx: int|
                        0 <= xx < x as int ==> #[trigger] pixels@[y as int * nw as int + xx]
                            == expected(xx, y as int),
                decreases nw as int - x as int,
            {
                proof {
                    lemma_index_bound(x as int, y as int, nw as int, nh as int);
                }
                let c: Color = if x < self.width && y < self.height {
                    self.pixel(x, y)
                } else {
                    Color::transparent()
                };
                pixels.push(c);
                proof {
                    assert forall|xx: int, yy: int|
                        0 <= xx < nw as int && 0 <= yy < y as int implies #[trigger] pixels@[yy
                        * nw as int + xx] == expected(xx, yy) by {
                        lemma_index_bound(xx, yy, nw as int, y as int);
                        assert(yy * nw as int + xx < y as int * nw as int) by (nonlinear_arith)
                            requires
                                0 <= xx < nw as int,
                                0 <= yy < y as int,
                        ;
                    }
                }
                x = x + 1;
            }
            proof {
                assert((y as int + 1) * nw as int == y as int * nw as int + nw as int)
                    by (nonlinear_arith);
            }
            y = y + 1;
        }
        proof {
            assert(nh as int * nw as int == nw as int * nh as int) by (nonlinear_arith);
        }
        let bm = Bitmap { width: nw, height: nh, pixels };
        proof {
            assert forall|x: int, y: int| bm.in_bounds(x, y) implies bm.at(x, y) == expected(
                x,
                y,
            ) by {
                lemma_index_bound(x, y, nw as int, nh as int);
            }
        }
        bm
    }

    /// An identical copy: same dimensions, same buffer.
    pub fn duplicate(&self) -> (bm: Bitmap)
        ensures
            bm.wd() == self.wd(),
            bm.ht() == self.ht(),
            bm.pix() == self.pix(),
    {
        let mut pixels: Vec<Color> = Vec::new();
        let mut i: usize = 0;
        while i < self.pixels.len()
            invariant
                i <= self.pix().len(),
                pixels@.len() == i,
                forall|k: int| 0 <= k < i ==> pixels@[k] == self.pix()[k],
            decreases self.pix().len() - i,
        {
            pixels.push(self.pixels[i]);
            i = i + 1;
        }
        let bm = Bitmap { width: self.width, height: self.height, pixels };
        proof {
            assert(bm.pix() =~= self.pix());
        }
        bm
    }

    /// A standalone copy of the rectangle's pixels.
    #[verifier::loop_isolation(false)]
    pub fn extract(&self, rect: Rect) -> (bm: Bitmap)
        requires
            self.wf(),
            rect.w >= 1,
            rect.h >= 1,
            rect.x + rect.w <= self.wd(),
            rect.y + rect.h <= self.ht(),
        ensures
            bm.wf(),
            bm.wd() == rect.w,
            bm.ht() == rect.h,
            forall|i: int, j: int|
                bm.in_bounds(i, j) ==> bm.at(i, j) == self.at(rect.x + i, rect.y + j),
    {
        let nw: u16 = rect.w;
        let nh: u16 = rect.h;
        let mut pixels: Vec<Color> = Vec::new();
        let mut j: u16 = 0;
        while j < nh
            invariant
                j <= nh,
                pixels@.len() == j as int * nw as int,
                forall|ii: int, jj: int|
                    0 <= ii < nw as int && 0 <= jj < j as int ==> #[trigger] pixels@[jj
                        * nw as int + ii] == self.at(rect.x + ii, rect.y + jj),
            decreases nh as int - j as int,
        {
            let mut i: u16 = 0;
            while i < nw
                invariant
                    j < nh,
                    i <= nw,
                    pixels@.len() == j as int * nw as int + i as int,
                    forall|ii: int, jj: int|
                        0 <= ii < nw as int && 0 <= jj < j as int ==> #[trigger] pixels@[jj
                            * nw as int + ii] == self.at(rect.x + ii, rect.y + jj),
                    forall|ii: int|
                        0 <= ii < i as int ==> #[trigger] pixels@[j as int * nw as int + ii]
                            == self.at(rect.x + ii, rect.y + j as int),
                decreases nw as int - i as int,
            {
                let c: Color = self.pixel(rect.x + i, rect.y + j);
                pixels.push(c);
                proof {
                    assert forall|ii: int, jj: int|
                        0 <= ii < nw as int && 0 <= jj < j as int implies #[trigger] pixels@[jj
                        * nw as int + ii] == self.at(rect.x + ii, rect.y + jj) by {
                        lemma_index_bound(ii, jj, nw as int, j as int);
                        assert(jj * nw as int + ii < j as int * nw as int) by (nonlinear_arith)
                            requires
                                0 <= ii < nw as int,
                                0 <= jj < j as int,
                        ;
                    }
                }
                i = i + 1;
            }
            proof {
                assert((j as int + 1) * nw as int == j as int * nw as int + nw as int)
                    by (nonlinear_arith);
            }
            j = j + 1;
        }
        proof {
            assert(nh as int * nw as int == nw as int * nh as int) by (nonlinear_arith);
        }
        let bm = Bitmap { width: nw, height: nh, pixels };
        proof {
            assert forall|i: int, j: int| bm.in_bounds(i, j) implies bm.at(i, j) == self.at(
                rect.x + i,
                rect.y + j,
            ) by {
                lemma_index_bound(i, j, nw as int, nh as int);
            }
        }
        bm
    }

    /// Sets every pixel inside `rect` to transparent; the rest is kept.
    #[verifier::loop_isolation(false)]
    pub fn clear_rect(&mut self, rect: Rect)
        requires
            old(self).wf(),
            rect.x + rect.w <= old(self).wd(),
            rect.y + rect.h <= old(self).ht(),
        ensures
            final(self).wf(),
            final(self).same_dims(*old(self)),
            forall|x: int, y: int|
                old(self).in_bounds(x, y) ==> final(self).at(x, y) == (if rect.contains_spec(
                    x,
                    y,
                ) {
                    Color::transparent_spec()
                } else {
                    old(self).at(x, y)
                }),
    {
        let nw: u16 = self.width;
        let nh: u16 = self.height;
        let mut pixels: Vec<Color> = Vec::new();
        let mut y: u16 = 0;
        while y < nh
            invariant
                y <= nh,
                pixels@.len() == y as int * nw as int,
                forall|xx: int, yy: int|
                    0 <= xx < nw as int && 0 <= yy < y as int ==> #[trigger] pixels@[yy
                        * nw as int + xx] == (if rect.contains_spec(xx, yy) {
                        Color::transparent_spec()
                    } else {
                        self.at(xx, yy)
                    }),
            decreases nh as int - y as int,
        {
            let mut x: u16 = 0;
            while x < nw
                invariant
                    y < nh,
                    x <= nw,
                    pixels@.len() == y as int * nw as int + x as int,
                    forall|xx: int, yy: int|
                        0 <= xx < nw as int && 0 <= yy < y as int ==> #[trigger] pixels@[yy
                            * nw as int + xx] == (if rect.contains_spec(xx, yy) {
                            Color::transparent_spec()
                        } else {
                            self.at(xx, yy)
                        }),
                    forall|xx: int|
                        0 <= xx < x as int ==> #[trigger] pixels@[y as int * nw as int + xx] == (
                        if rect.contains_spec(xx, y as int) {
                            Color::transparent_spec()
                        } else {
                            self.at(xx, y as int)
                        }),
                decreases nw as int - x as int,
            {
                let inside: bool = x >= rect.x && (x as u32) < rect.x as u32 + rect.w as u32 && y
                    >= rect.y && (y as u32) < rect.y as u32 + rect.h as u32;
                let c: Color = if inside {
                    Color::transparent()
                } else {
                    self.pixel(x, y)
                };
                pixels.push(c);
                proof {
                    assert forall|xx: int, yy: int|
                        0 <= xx < nw as int && 0 <= yy < y as int implies #[trigger] pixels@[yy
                        * nw as int + xx] == (if rect.contains_spec(xx, yy) {
                        Color::transparent_spec()
                    } else {
                        self.at(xx, yy)
                    }) by {
                        lemma_index_bound(xx, yy, nw as int, y as int);
                        assert(yy * nw as int + xx < y as int * nw as int) by (nonlinear_arith)
                            requires
                                0 <= xx < nw as int,
                                0 <= yy < y as int,
                        ;
                    }
                }
                x = x + 1;
            }
            proof {
                assert((y as int + 1) * nw as int == y as int * nw as int + nw as int)
                    by (nonlinear_arith);
            }
            y = y + 1;
        }
        proof {
            assert(nh as int * nw as int == nw as int * nh as int) by (nonlinear_arith);
        }
        let bm = Bitmap { width: nw, height: nh, pixels };
        proof {
            assert forall|x: int, y: int| bm.in_bounds(x, y) implies bm.at(x, y) == (
            if rect.contains_spec(x, y) {
                Color::transparent_spec()
            } else {
                old(self).at(x, y)
            }) by {
                lemma_index_bound(x, y, nw as int, nh as int);
            }
        }
        *self = bm;
    }

    /// Whether (x, y) falls under `src` placed with its top-left corner
    /// at (px, py).
    pub open spec fn covered_by(self, src: Bitmap, px: int, py: int, x: int, y: int) -> bool {
        0 <= x - px < src.wd() && 0 <= y - py < src.ht()
    }

    /// Composites `src`, placed at (px, py), over this bitmap; source
    /// pixels that land outside the bounds are dropped.
    #[verifier::loop_isolation(false)]
    pub fn merge_blend(&mut self, src: &Bitmap, px: i32, py: i32)
        requires
            old(self).wf(),
            src.wf(),
        ensures
            final(self).wf(),
            final(self).same_dims(*old(self)),
            forall|x: int, y: int|
                old(self).in_bounds(x, y) ==> final(self).at(x, y) == (if old(self).covered_by(
                    *src,
                    px as int,
                    py as int,
                    x,
                    y,
                ) {
                    src.at(x - px, y - py).over_spec(old(self).at(x, y))
                } else {
                    old(self).at(x, y)
                }),
    {
        let nw: u16 = self.width;
        let nh: u16 = self.height;
        let mut pixels: Vec<Color> = Vec::new();
        let mut y: u16 = 0;
        while y < nh
            invariant
                y <= nh,
                pixels@.len() == y as int * nw as int,
                forall|xx: int, yy: int|
                    0 <= xx < nw as int && 0 <= yy < y as int ==> #[trigger] pixels@[yy
                        * nw as int + xx] == (if self.covered_by(*src, px as int, py as int, xx, yy) {
                        src.at(xx - px, yy - py).over_spec(self.at(xx, yy))
                    } else {
                        self.at(xx, yy)
                    }),
            decreases nh as int - y as int,
        {
            let mut x: u16 = 0;
            while x < nw
                invariant
                    y < nh,
                    x <= nw,
                    pixels@.len() == y as int * nw as int + x as int,
                    forall|xx: int, yy: int|
                        0 <= xx < nw as int && 0 <= yy < y as int ==> #[trigger] pixels@[yy
                            * nw as int + xx] == (if self.covered_by(*src, px as int, py as int, xx, yy) {
                            src.at(xx - px, yy - py).over_spec(self.at(xx, yy))
                        } else {
                            self.at(xx, yy)
                        }),
                    forall|xx: int|
                        0 <= xx < x as int ==> #[trigger] pixels@[y as int * nw as int + xx] == (
                        if self.covered_by(*src, px as int, py as int, xx, y as int) {
                            src.at(xx - px, y as int - py).over_spec(self.at(xx, y as int))
                        } else {
                            self.at(xx, y as int)
                        }),
                decreases nw as int - x as int,
            {
                let sx: i64 = x as i64 - px as i64;
                let sy: i64 = y as i64 - py as i64;
                let under: Color = self.pixel(x, y);
                let c: Color = if sx >= 0 && sx < src.width as i64 && sy >= 0 && sy
                    < src.height as i64 {
                    src.pixel(sx as u16, sy as u16).over(under)
                } else {
                    under
                };
                pixels.push(c);
                proof {
                    assert forall|xx: int, yy: int|
                        0 <= xx < nw as int && 0 <= yy < y as int implies #[trigger] pixels@[yy
                        * nw as int + xx] == (if self.covered_by(*src, px as int, py as int, xx, yy) {
                        src.at(xx - px, yy - py).over_spec(self.at(xx, yy))
                    } else {
                        self.at(xx, yy)
                    }) by {
                        lemma_index_bound(xx, yy, nw as int, y as int);
                        assert(yy * nw as int + xx < y as int * nw as int) by (nonlinear_arith)
                            requires
                                0 <= xx < nw as int,
                                0 <= yy < y as int,
                        ;
                    }
                }
                x = x + 1;
            }
            proof {
                assert((y as int + 1) * nw as int == y as int * nw as int + nw as int)
                    by (nonlinear_arith);
            }
            y = y + 1;
        }
        proof {
            assert(nh as int * nw as int == nw as int * nh as int) by (nonlinear_arith);
        }
        let bm = Bitmap { width: nw, height: nh, pixels };
        proof {
            assert forall|x: int, y: int| bm.in_bounds(x, y) implies bm.at(x, y) == (
            if old(self).covered_by(*src, px as int, py as int, x, y) {
                src.at(x - px, y - py).over_spec(old(self).at(x, y))
            } else {
                old(self).at(x, y)
            }) by {
                lemma_index_bound(x, y, nw as int, nh as int);
            }
        }
        *self = bm;
    }
}

} // verus!
