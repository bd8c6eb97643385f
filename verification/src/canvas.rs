//! One bitmap plus canvas-level display metadata: the spritesheet grid.

use vstd::prelude::*;
use crate::bitmap::Bitmap;
use crate::bitmap::lemma_index_bound;
use crate::primitives::{Color, Rect};

verus! {

/// A drawing surface: a [`Bitmap`] and a spritesheet grid that
/// partitions it into equal display cells.
///
/// The grid is metadata for display boundaries only; a grid that does
/// not divide the bitmap evenly is treated as a single cell.
#[derive(Debug)]
pub struct Canvas {
    bitmap: Bitmap,
    grid_x: u16,
    grid_y: u16,
}

impl Canvas {
    /// The owned bitmap.
    pub closed spec fn bm(self) -> Bitmap {
        self.bitmap
    }

    /// Requested grid columns.
    pub closed spec fn gx(self) -> int {
        self.grid_x as int
    }

    /// Requested grid rows.
    pub closed spec fn gy(self) -> int {
        self.grid_y as int
    }

    pub open spec fn wf(self) -> bool {
        &&& self.bm().wf()
        &&& 1 <= self.gx() <= 0xffff
        &&& 1 <= self.gy() <= 0xffff
    }

    /// Whether the requested grid divides both bitmap dimensions evenly.
    pub open spec fn grid_divides(self) -> bool {
        self.bm().wd() % self.gx() == 0 && self.bm().ht() % self.gy() == 0
    }

    /// Effective grid columns: the requested count, or 1 when the grid
    /// does not divide the bitmap evenly.
    pub open spec fn grid_eff_x(self) -> int {
        if self.grid_divides() {
            self.gx()
        } else {
            1
        }
    }

    /// Effective grid rows.
    pub open spec fn grid_eff_y(self) -> int {
        if self.grid_divides() {
            self.gy()
        } else {
            1
        }
    }

    /// Width of one sprite cell.
    pub open spec fn cell_w(self) -> int {
        self.bm().wd() / self.grid_eff_x()
    }

    /// Height of one sprite cell.
    pub open spec fn cell_h(self) -> int {
        self.bm().ht() / self.grid_eff_y()
    }

    pub fn new(bitmap: Bitmap) -> (cv: Canvas)
        requires
            bitmap.wf(),
        ensures
            cv.wf(),
            cv.bm() == bitmap,
            cv.gx() == 1,
            cv.gy() == 1,
    {
        Canvas { bitmap, grid_x: 1, grid_y: 1 }
    }

    pub fn width(&self) -> (w: u16)
        ensures
            w as int == self.bm().wd(),
    {
        self.bitmap.width()
    }

    pub fn height(&self) -> (h: u16)
        ensures
            h as int == self.bm().ht(),
    {
        self.bitmap.height()
    }

    /// Read-only view of the owned bitmap.
    pub fn inner(&self) -> (bm: &Bitmap)
        ensures
            *bm == self.bm(),
    {
        &self.bitmap
    }

    /// Replaces the owned bitmap.
    pub fn set_bitmap(&mut self, bitmap: Bitmap)
        requires
            bitmap.wf(),
        ensures
            final(self).bm() == bitmap,
            final(self).gx() == old(self).gx(),
            final(self).gy() == old(self).gy(),
            old(self).wf() ==> final(self).wf(),
    {
        self.bitmap = bitmap;
    }

    /// Mutable access to the owned bitmap.
    pub fn bitmap_mut(&mut self) -> (bm: &mut Bitmap)
        ensures
            *bm == old(self).bm(),
            final(self).bm() == *final(bm),
            final(self).gx() == old(self).gx(),
            final(self).gy() == old(self).gy(),
    {
        &mut self.bitmap
    }

    /// Requests a new spritesheet grid; zero counts are rejected.
    pub fn set_grid(&mut self, gx: u16, gy: u16)
        requires
            old(self).wf(),
        ensures
            final(self).wf(),
            final(self).bm() == old(self).bm(),
            gx >= 1 && gy >= 1 ==> final(self).gx() == gx && final(self).gy() == gy,
            !(gx >= 1 && gy >= 1) ==> *final(self) == *old(self),
    {
        if gx >= 1 && gy >= 1 {
            self.grid_x = gx;
            self.grid_y = gy;
        }
    }

    /// The effective spritesheet grid (columns, rows).
    pub fn spritesheet(&self) -> (g: (u16, u16))
        requires
            self.wf(),
        ensures
            g.0 as int == self.grid_eff_x(),
            g.1 as int == self.grid_eff_y(),
    {
        if self.bitmap.width() % self.grid_x == 0 && self.bitmap.height() % self.grid_y == 0 {
            (self.grid_x, self.grid_y)
        } else {
            (1, 1)
        }
    }

    /// Whether `cell` holds exactly the sprite at grid position (gi, gj).
    pub open spec fn cell_matches(self, cell: Bitmap, gi: int, gj: int) -> bool {
        &&& cell.wd() == self.cell_w()
        &&& cell.ht() == self.cell_h()
        &&& forall|u: int, v: int|
            cell.in_bounds(u, v) ==> cell.at(u, v) == self.bm().at(
                gi * self.cell_w() + u,
                gj * self.cell_h() + v,
            )
    }

    /// One bitmap per sprite cell, in row-major grid order.
    #[verifier::loop_isolation(false)]
    pub fn sprite_images(&self) -> (cells: Vec<Bitmap>)
        requires
            self.wf(),
        ensures
            cells@.len() == self.grid_eff_x() * self.grid_eff_y(),
            forall|gi: int, gj: int|
                0 <= gi < self.grid_eff_x() && 0 <= gj < self.grid_eff_y()
                    ==> self.cell_matches(#[trigger] cells@[gj * self.grid_eff_x() + gi], gi, gj),
    {
        let (gex, gey): (u16, u16) = self.spritesheet();
        let cw: u16 = self.bitmap.width() / gex;
        let ch: u16 = self.bitmap.height() / gey;
        proof {
            lemma_grid_cell_bounds(self.bm().wd(), gex as int, cw as int);
            lemma_grid_cell_bounds(self.bm().ht(), gey as int, ch as int);
        }
        let mut cells: Vec<Bitmap> = Vec::new();
        let mut gj: u16 = 0;
        while gj < gey
            invariant
                gj <= gey,
                cells@.len() == gj as int * gex as int,
                forall|i: int, j: int|
                    0 <= i < gex as int && 0 <= j < gj as int ==> self.cell_matches(
                        #[trigger] cells@[j * gex as int + i],
                        i,
                        j,
                    ),
            decreases gey as int - gj as int,
        {
            let mut gi: u16 = 0;
            while gi < gex
                invariant
                    gj < gey,
                    gi <= gex,
                    cells@.len() == gj as int * gex as int + gi as int,
                    forall|i: int, j: int|
                        0 <= i < gex as int && 0 <= j < gj as int ==> self.cell_matches(
                            #[trigger] cells@[j * gex as int + i],
                            i,
                            j,
                        ),
                    forall|i: int|
                        0 <= i < gi as int ==> self.cell_matches(
                            #[trigger] cells@[gj as int * gex as int + i],
                            i,
                            gj as int,
                        ),
                decreases gex as int - gi as int,
            {
                proof {
                    assert(gi as int * cw as int + cw as int <= gex as int * cw as int
                        && gj as int * ch as int + ch as int <= gey as int * ch as int
                        && 0 <= gi as int * cw as int && 0 <= gj as int * ch as int)
                        by (nonlinear_arith)
                        requires
                            gi < gex,
                            gj < gey,
                            cw >= 1,
                            ch >= 1,
                    ;
                }
                let rect = Rect::new(gi * cw, gj * ch, cw, ch);
                let cell = self.bitmap.extract(rect);
                cells.push(cell);
                proof {
                    assert forall|i: int, j: int|
                        0 <= i < gex as int && 0 <= j < gj as int implies self.cell_matches(
                        #[trigger] cells@[j * gex as int + i],
                        i,
                        j,
                    ) by {
                        lemma_index_bound(i, j, gex as int, gj as int);
                        assert(j * gex as int + i < gj as int * gex as int) by (nonlinear_arith)
                            requires
                                0 <= i < gex as int,
                                0 <= j < gj as int,
                        ;
                    }
                }
                gi = gi + 1;
            }
            proof {
                assert((gj as int + 1) * gex as int == gj as int * gex as int + gex as int)
                    by (nonlinear_arith);
            }
            gj = gj + 1;
        }
        proof {
            assert(gey as int * gex as int == gex as int * gey as int) by (nonlinear_arith);
        }
        cells
    }
}

/// When `g` divides `d` evenly and `c == d / g`, every cell of width `c`
/// starting at a multiple of `c` below `g * c` lies inside `d`.
proof fn lemma_grid_cell_bounds(d: int, g: int, c: int)
    requires
        1 <= g,
        1 <= d,
        d % g == 0,
        c == d / g,
    ensures
        g * c == d,
        c >= 1,
{
    assert(g * c == d && c >= 1) by (nonlinear_arith)
        requires
            1 <= g,
            1 <= d,
            d % g == 0,
            c == d / g,
    ;
}

} // verus!
