//! Single-pixel-wide line rasterization between two canvas points.
//!
//! Each step along the longer axis advances the shorter axis by the
//! nearest-integer interpolation, which traces the same pixels as the
//! classic error-accumulating rasterizers.

use vstd::prelude::*;
use crate::bitmap::Bitmap;
use crate::bitmap::lemma_index_bound;
use crate::history::{PixelWrite, apply_writes, lemma_apply_writes_restores, write_idx, writes_cover, writes_unique, writes_valid};
use crate::primitives::Color;

verus! {

/// Distance between two coordinates.
pub open spec fn axis_steps(a0: int, a1: int) -> int {
    if a1 >= a0 {
        a1 - a0
    } else {
        a0 - a1
    }
}

/// Number of steps of the line: the longer axis distance. The line has
/// `line_steps + 1` pixels.
pub open spec fn line_steps(x0: int, y0: int, x1: int, y1: int) -> int {
    if axis_steps(x0, x1) >= axis_steps(y0, y1) {
        axis_steps(x0, x1)
    } else {
        axis_steps(y0, y1)
    }
}

/// `i * ad / n`, rounded to the nearest integer (n >= 1, 0 <= ad).
pub open spec fn round_offset(i: int, ad: int, n: int) -> int {
    (2 * i * ad + n) / (2 * n)
}

/// The coordinate of step `i` on the axis running from `a0` to `a1`.
pub open spec fn coord_at(a0: int, a1: int, i: int, n: int) -> int {
    if n == 0 {
        a0
    } else if a1 >= a0 {
        a0 + round_offset(i, a1 - a0, n)
    } else {
        a0 - round_offset(i, a0 - a1, n)
    }
}

/// The x coordinate of the line's step `i`.
pub open spec fn line_x(x0: int, y0: int, x1: int, y1: int, i: int) -> int {
    coord_at(x0, x1, i, line_steps(x0, y0, x1, y1))
}

/// The y coordinate of the line's step `i`.
pub open spec fn line_y(x0: int, y0: int, x1: int, y1: int, i: int) -> int {
    coord_at(y0, y1, i, line_steps(x0, y0, x1, y1))
}

/// Whether (x, y) is one of the line's pixels.
pub open spec fn on_line(x0: int, y0: int, x1: int, y1: int, x: int, y: int) -> bool {
    exists|i: int|
        0 <= i <= line_steps(x0, y0, x1, y1) && #[trigger] line_x(x0, y0, x1, y1, i) == x
            && line_y(x0, y0, x1, y1, i) == y
}

/// The rounded offset never leaves [0, ad] while `i` stays in [0, n].
proof fn lemma_offset_range(i: int, ad: int, n: int)
    requires
        0 <= i <= n,
        0 <= ad <= n,
        1 <= n,
    ensures
        0 <= round_offset(i, ad, n) <= ad,
{
    assert(0 <= (2 * i * ad + n) / (2 * n) <= ad) by (nonlinear_arith)
        requires
            0 <= i <= n,
            0 <= ad <= n,
            1 <= n,
    ;
}

/// Along the longer axis the interpolation is exact: step `i` lands at
/// offset `i`.
proof fn lemma_offset_major(i: int, n: int)
    requires
        0 <= i <= n,
        1 <= n,
    ensures
        round_offset(i, n, n) == i,
{
    assert((2 * i * n + n) / (2 * n) == i) by (nonlinear_arith)
        requires
            0 <= i <= n,
            1 <= n,
    ;
}

/// Distinct steps give distinct pixels: the longer axis coordinate is
/// strictly monotone in the step index.
proof fn lemma_line_injective(x0: int, y0: int, x1: int, y1: int, i: int, j: int)
    requires
        0 <= i <= line_steps(x0, y0, x1, y1),
        0 <= j <= line_steps(x0, y0, x1, y1),
        i != j,
        line_steps(x0, y0, x1, y1) >= 1,
    ensures
        line_x(x0, y0, x1, y1, i) != line_x(x0, y0, x1, y1, j) || line_y(x0, y0, x1, y1, i)
            != line_y(x0, y0, x1, y1, j),
{
    let n = line_steps(x0, y0, x1, y1);
    if axis_steps(x0, x1) >= axis_steps(y0, y1) {
        lemma_offset_major(i, n);
        lemma_offset_major(j, n);
    } else {
        lemma_offset_major(i, n);
        lemma_offset_major(j, n);
    }
}

/// Rasterizes the line from (x0, y0) to (x1, y1) in `color`, and
/// returns the sparse undo record: performing it on the result restores
/// the original buffer.
#[verifier::loop_isolation(false)]
pub fn draw_line(bm: &mut Bitmap, x0: u16, y0: u16, x1: u16, y1: u16, color: Color) -> (undo: Vec<
    PixelWrite,
>)
    requires
        old(bm).wf(),
        old(bm).in_bounds(x0 as int, y0 as int),
        old(bm).in_bounds(x1 as int, y1 as int),
    ensures
        final(bm).wf(),
        final(bm).same_dims(*old(bm)),
        forall|i: int|
            0 <= i <= line_steps(x0 as int, y0 as int, x1 as int, y1 as int) ==> final(bm).at(
                #[trigger] line_x(x0 as int, y0 as int, x1 as int, y1 as int, i),
                line_y(x0 as int, y0 as int, x1 as int, y1 as int, i),
            ) == color,
        forall|x: int, y: int|
            old(bm).in_bounds(x, y) && !on_line(x0 as int, y0 as int, x1 as int, y1 as int, x, y)
                ==> final(bm).at(x, y) == old(bm).at(x, y),
        writes_valid(undo@, old(bm).wd(), old(bm).ht()),
        writes_unique(undo@, old(bm).wd()),
        apply_writes(final(bm).pix(), old(bm).wd(), undo@) == old(bm).pix(),
        undo@.len() == line_steps(x0 as int, y0 as int, x1 as int, y1 as int) + 1,
{
    let ghost w = old(bm).wd();
    let ghost h = old(bm).ht();
    let ghost gx0 = x0 as int;
    let ghost gy0 = y0 as int;
    let ghost gx1 = x1 as int;
    let ghost gy1 = y1 as int;
    let ghost n_spec = line_steps(gx0, gy0, gx1, gy1);

    let adx: u32 = if x1 >= x0 {
        (x1 - x0) as u32
    } else {
        (x0 - x1) as u32
    };
    let ady: u32 = if y1 >= y0 {
        (y1 - y0) as u32
    } else {
        (y0 - y1) as u32
    };
    let n: u32 = if adx >= ady {
        adx
    } else {
        ady
    };
    assert(n as int == n_spec);

    let mut undo: Vec<PixelWrite> = Vec::new();
    if n == 0 {
        let prior = bm.pixel(x0, y0);
        undo.push(PixelWrite { x: x0, y: y0, color: prior });
        bm.set_pixel(x0, y0, color);
        proof {
            assert(line_x(gx0, gy0, gx1, gy1, 0) == gx0 && line_y(gx0, gy0, gx1, gy1, 0) == gy0);
            assert forall|i: int| 0 <= i <= n_spec implies bm.at(
                #[trigger] line_x(gx0, gy0, gx1, gy1, i),
                line_y(gx0, gy0, gx1, gy1, i),
            ) == color by {
                assert(i == 0);
            }
            assert forall|x: int, y: int|
                old(bm).in_bounds(x, y) && !on_line(gx0, gy0, gx1, gy1, x, y) implies bm.at(x, y)
                == old(bm).at(x, y) by {
                assert(line_x(gx0, gy0, gx1, gy1, 0) == gx0);
                if x == gx0 && y == gy0 {
                    assert(on_line(gx0, gy0, gx1, gy1, x, y));
                }
            }
            assert forall|k: int|
                0 <= k < undo@.len() implies (#[trigger] undo@[k]).color == old(bm).pix()[write_idx(
                w,
                undo@[k],
            )] by {
                lemma_index_bound(gx0, gy0, w, h);
            }
            assert forall|idx: int|
                0 <= idx < bm.pix().len() && !writes_cover(undo@, w, idx) implies bm.pix()[idx]
                == old(bm).pix()[idx] by {
                lemma_index_bound(gx0, gy0, w, h);
                if idx == gy0 * w + gx0 {
                    assert(write_idx(w, undo@[0]) == idx);
                } else {
                    let x = idx % w;
                    let y = idx / w;
                    vstd::arithmetic::div_mod::lemma_fundamental_div_mod(idx, w);
                    vstd::arithmetic::div_mod::lemma_mod_bound(idx, w);
                    assert(w * y + x == y * w + x) by (nonlinear_arith);
                    assert(idx == y * w + x);
                    assert(0 <= y < h) by (nonlinear_arith)
                        requires
                            idx == y * w + x,
                            0 <= idx < w * h,
                            0 <= x < w,
                            1 <= w,
                    ;
                    assert(!(x == gx0 && y == gy0));
                    assert(bm.at(x, y) == old(bm).at(x, y));
                    assert(bm.pix()[idx] == old(bm).pix()[idx]);
                }
            }
            lemma_apply_writes_restores(old(bm).pix(), bm.pix(), w, h, undo@);
        }
        return undo;
    }

    proof {
        assert forall|k: int| 0 <= k <= n_spec implies old(bm).in_bounds(
            #[trigger] line_x(gx0, gy0, gx1, gy1, k),
            line_y(gx0, gy0, gx1, gy1, k),
        ) by {
            lemma_offset_range(k, adx as int, n as int);
            lemma_offset_range(k, ady as int, n as int);
        }
    }
    let mut i: u32 = 0;
    while i <= n
        invariant
            bm.wf(),
            bm.same_dims(*old(bm)),
            1 <= n,
            i <= n + 1,
            undo@.len() == i as int,
            forall|k: int|
                0 <= k < i as int ==> (#[trigger] undo@[k]).x as int == line_x(
                    gx0,
                    gy0,
                    gx1,
                    gy1,
                    k,
                ) && undo@[k].y as int == line_y(gx0, gy0, gx1, gy1, k) && undo@[k].color == old(
                    bm,
                ).at(line_x(gx0, gy0, gx1, gy1, k), line_y(gx0, gy0, gx1, gy1, k)) && old(
                    bm,
                ).in_bounds(undo@[k].x as int, undo@[k].y as int),
            forall|k: int|
                0 <= k < i as int ==> bm.at(
                    #[trigger] line_x(gx0, gy0, gx1, gy1, k),
                    line_y(gx0, gy0, gx1, gy1, k),
                ) == color,
            forall|x: int, y: int|
                old(bm).in_bounds(x, y) && !(exists|k: int|
                    0 <= k < i as int && #[trigger] line_x(gx0, gy0, gx1, gy1, k) == x && line_y(
                        gx0,
                        gy0,
                        gx1,
                        gy1,
                        k,
                    ) == y) ==> bm.at(x, y) == old(bm).at(x, y),
        decreases n as int + 1 - i as int,
    {
        proof {
            assert(0 <= 2 * (i as int) * (adx as int) <= 0x2_0000_0000 && 0 <= 2 * (i as int) * (
            ady as int) <= 0x2_0000_0000) by (nonlinear_arith)
                requires
                    0 <= i <= 0xffff,
                    0 <= adx <= 0xffff,
                    0 <= ady <= 0xffff,
            ;
        }
        let off_x: u32 = ((2 * (i as u64) * (adx as u64) + n as u64) / (2 * n as u64)) as u32;
        let off_y: u32 = ((2 * (i as u64) * (ady as u64) + n as u64) / (2 * n as u64)) as u32;
        proof {
            lemma_offset_range(i as int, adx as int, n as int);
            lemma_offset_range(i as int, ady as int, n as int);
        }
        let xi: u16 = if x1 >= x0 {
            x0 + off_x as u16
        } else {
            x0 - off_x as u16
        };
        let yi: u16 = if y1 >= y0 {
            y0 + off_y as u16
        } else {
            y0 - off_y as u16
        };
        proof {
            assert(xi as int == line_x(gx0, gy0, gx1, gy1, i as int));
            assert(yi as int == line_y(gx0, gy0, gx1, gy1, i as int));
        }
        let prior = bm.pixel(xi, yi);
        proof {
            assert(prior == old(bm).at(xi as int, yi as int)) by {
                if exists|k: int|
                    0 <= k < i as int && #[trigger] line_x(gx0, gy0, gx1, gy1, k) == xi as int
                        && line_y(gx0, gy0, gx1, gy1, k) == yi as int {
                    let k = choose|k: int|
                        0 <= k < i as int && #[trigger] line_x(gx0, gy0, gx1, gy1, k) == xi as int
                            && line_y(gx0, gy0, gx1, gy1, k) == yi as int;
                    lemma_line_injective(gx0, gy0, gx1, gy1, k, i as int);
                }
            }
        }
        undo.push(PixelWrite { x: xi, y: yi, color: prior });
        bm.set_pixel(xi, yi, color);
        proof {
            assert forall|k: int|
                0 <= k < i as int + 1 implies bm.at(
                #[trigger] line_x(gx0, gy0, gx1, gy1, k),
                line_y(gx0, gy0, gx1, gy1, k),
            ) == color by {
                if k < i as int {
                    if line_x(gx0, gy0, gx1, gy1, k) == xi as int && line_y(
                        gx0,
                        gy0,
                        gx1,
                        gy1,
                        k,
                    ) == yi as int {
                        lemma_line_injective(gx0, gy0, gx1, gy1, k, i as int);
                    }
                }
            }
        }
        i = i + 1;
    }
    proof {
        assert forall|x: int, y: int|
            old(bm).in_bounds(x, y) && !on_line(gx0, gy0, gx1, gy1, x, y) implies bm.at(x, y)
            == old(bm).at(x, y) by {}
        assert(writes_valid(undo@, w, h));
        assert(writes_unique(undo@, w)) by {
            assert forall|k: int, l: int|
                0 <= k < l < undo@.len() implies #[trigger] write_idx(w, undo@[k])
                != #[trigger] write_idx(w, undo@[l]) by {
                lemma_line_injective(gx0, gy0, gx1, gy1, k, l);
                lemma_index_bound(undo@[k].x as int, undo@[k].y as int, w, h);
                lemma_index_bound(undo@[l].x as int, undo@[l].y as int, w, h);
                if write_idx(w, undo@[k]) == write_idx(w, undo@[l]) {
                    crate::bitmap::lemma_index_injective(
                        undo@[k].x as int,
                        undo@[k].y as int,
                        undo@[l].x as int,
                        undo@[l].y as int,
                        w,
                    );
                }
            }
        }
        assert forall|k: int|
            0 <= k < undo@.len() implies (#[trigger] undo@[k]).color == old(bm).pix()[write_idx(
            w,
            undo@[k],
        )] by {
            lemma_index_bound(undo@[k].x as int, undo@[k].y as int, w, h);
        }
        assert forall|idx: int|
            0 <= idx < bm.pix().len() && !writes_cover(undo@, w, idx) implies bm.pix()[idx] == old(
            bm,
        ).pix()[idx] by {
            let x = idx % w;
            let y = idx / w;
            vstd::arithmetic::div_mod::lemma_fundamental_div_mod(idx, w);
            vstd::arithmetic::div_mod::lemma_mod_bound(idx, w);
            assert(0 <= x < w);
            assert(0 <= y < h) by (nonlinear_arith)
                requires
                    idx == y * w + x,
                    0 <= idx < w * h,
                    0 <= x < w,
                    1 <= w,
            ;
            assert(idx == y * w + x);
            if exists|k: int|
                0 <= k < undo@.len() && #[trigger] line_x(gx0, gy0, gx1, gy1, k) == x && line_y(
                    gx0,
                    gy0,
                    gx1,
                    gy1,
                    k,
                ) == y {
                let k = choose|k: int|
                    0 <= k < undo@.len() && #[trigger] line_x(gx0, gy0, gx1, gy1, k) == x && line_y(
                        gx0,
                        gy0,
                        gx1,
                        gy1,
                        k,
                    ) == y;
                assert(write_idx(w, undo@[k]) == idx);
                assert(writes_cover(undo@, w, idx));
            } else {
                assert(!on_line(gx0, gy0, gx1, gy1, x, y));
                assert(bm.at(x, y) == old(bm).at(x, y));
            }
        }
        lemma_apply_writes_restores(old(bm).pix(), bm.pix(), w, h, undo@);
    }
    undo
}

} // verus!
