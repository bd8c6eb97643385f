//! Reversible records for undo/redo.
//!
//! A pixel-mutating command snapshots what it overwrites: a sparse list
//! of (x, y, prior color) writes for pixel-level commands, or the whole
//! prior bitmap for layer-wide ones. Applying the record to the buffer
//! the command produced restores the buffer the command started from.

use vstd::prelude::*;
use crate::bitmap::Bitmap;
use crate::bitmap::lemma_index_bound;
use crate::primitives::Color;

verus! {

/// One recorded pixel write: `color` goes to (x, y).
#[derive(Clone, Copy, PartialEq, Eq, Structural, Debug)]
pub struct PixelWrite {
    pub x: u16,
    pub y: u16,
    pub color: Color,
}

/// Row-major buffer index of a recorded write.
pub open spec fn write_idx(w: int, p: PixelWrite) -> int {
    p.y as int * w + p.x as int
}

/// Every write lands inside a `w` x `h` buffer.
pub open spec fn writes_valid(ws: Seq<PixelWrite>, w: int, h: int) -> bool {
    forall|k: int| 0 <= k < ws.len() ==> (#[trigger] ws[k]).x < w && ws[k].y < h
}

/// No two writes share a position.
pub open spec fn writes_unique(ws: Seq<PixelWrite>, w: int) -> bool {
    forall|k: int, l: int|
        0 <= k < l < ws.len() ==> #[trigger] write_idx(w, ws[k]) != #[trigger] write_idx(w, ws[l])
}

/// Whether some write targets buffer index `i`.
pub open spec fn writes_cover(ws: Seq<PixelWrite>, w: int, i: int) -> bool {
    exists|k: int| 0 <= k < ws.len() && #[trigger] write_idx(w, ws[k]) == i
}

/// The buffer after performing the writes in order on `s` (row-major
/// width `w`).
pub open spec fn apply_writes(s: Seq<Color>, w: int, ws: Seq<PixelWrite>) -> Seq<Color>
    decreases ws.len(),
{
    if ws.len() == 0 {
        s
    } else {
        apply_writes(s.update(write_idx(w, ws[0]), ws[0].color), w, ws.drop_first())
    }
}

pub proof fn lemma_apply_writes_len(s: Seq<Color>, w: int, h: int, ws: Seq<PixelWrite>)
    requires
        s.len() == w * h,
        1 <= w <= 0xffff,
        1 <= h <= 0xffff,
        writes_valid(ws, w, h),
    ensures
        apply_writes(s, w, ws).len() == s.len(),
    decreases ws.len(),
{
    if ws.len() > 0 {
        lemma_index_bound(ws[0].x as int, ws[0].y as int, w, h);
        assert forall|a: int| 0 <= a < ws.drop_first().len() implies (#[trigger] ws.drop_first()[a]) == ws[a + 1] by {}
        lemma_apply_writes_len(s.update(write_idx(w, ws[0]), ws[0].color), w, h, ws.drop_first());
    }
}

/// A position no write targets keeps its value.
pub proof fn lemma_apply_writes_unchanged(
    s: Seq<Color>,
    w: int,
    h: int,
    ws: Seq<PixelWrite>,
    i: int,
)
    requires
        s.len() == w * h,
        1 <= w <= 0xffff,
        1 <= h <= 0xffff,
        writes_valid(ws, w, h),
        0 <= i < s.len(),
        !writes_cover(ws, w, i),
    ensures
        apply_writes(s, w, ws)[i] == s[i],
    decreases ws.len(),
{
    if ws.len() > 0 {
        lemma_index_bound(ws[0].x as int, ws[0].y as int, w, h);
        let s1 = s.update(write_idx(w, ws[0]), ws[0].color);
        assert(write_idx(w, ws[0]) != i);
        assert forall|a: int| 0 <= a < ws.drop_first().len() implies (#[trigger] ws.drop_first()[a]) == ws[a + 1] by {}
        assert(!writes_cover(ws.drop_first(), w, i)) by {
            if writes_cover(ws.drop_first(), w, i) {
                let k = choose|k: int|
                    0 <= k < ws.drop_first().len() && #[trigger] write_idx(
                        w,
                        ws.drop_first()[k],
                    ) == i;
                assert(write_idx(w, ws[k + 1]) == i);
            }
        }
        lemma_apply_writes_unchanged(s1, w, h, ws.drop_first(), i);
    }
}

/// With distinct in-bounds positions, each write's position ends at that
/// write's color.
pub proof fn lemma_apply_writes_hit(s: Seq<Color>, w: int, h: int, ws: Seq<PixelWrite>, k: int)
    requires
        s.len() == w * h,
        1 <= w <= 0xffff,
        1 <= h <= 0xffff,
        writes_valid(ws, w, h),
        writes_unique(ws, w),
        0 <= k < ws.len(),
    ensures
        apply_writes(s, w, ws)[write_idx(w, ws[k])] == ws[k].color,
    decreases ws.len(),
{
    let idx0 = write_idx(w, ws[0]);
    let s1 = s.update(idx0, ws[0].color);
    lemma_index_bound(ws[0].x as int, ws[0].y as int, w, h);
    assert forall|a: int| 0 <= a < ws.drop_first().len() implies (#[trigger] ws.drop_first()[a]) == ws[a + 1] by {}
    if k == 0 {
        assert(!writes_cover(ws.drop_first(), w, idx0)) by {
            if writes_cover(ws.drop_first(), w, idx0) {
                let l = choose|l: int|
                    0 <= l < ws.drop_first().len() && #[trigger] write_idx(
                        w,
                        ws.drop_first()[l],
                    ) == idx0;
                assert(write_idx(w, ws[l + 1]) == write_idx(w, ws[0]));
            }
        }
        lemma_apply_writes_unchanged(s1, w, h, ws.drop_first(), idx0);
    } else {
        lemma_apply_writes_hit(s1, w, h, ws.drop_first(), k - 1);
        assert(ws.drop_first()[k - 1] == ws[k]);
    }
}

/// The restoration law behind undo: if `ws` records, for each of a set
/// of distinct positions, the color that `s_old` held there, and `s_cur`
/// agrees with `s_old` everywhere else, then performing `ws` on `s_cur`
/// rebuilds `s_old` exactly.
pub proof fn lemma_apply_writes_restores(
    s_old: Seq<Color>,
    s_cur: Seq<Color>,
    w: int,
    h: int,
    ws: Seq<PixelWrite>,
)
    requires
        s_old.len() == w * h,
        s_cur.len() == w * h,
        1 <= w <= 0xffff,
        1 <= h <= 0xffff,
        writes_valid(ws, w, h),
        writes_unique(ws, w),
        forall|k: int|
            0 <= k < ws.len() ==> (#[trigger] ws[k]).color == s_old[write_idx(w, ws[k])],
        forall|i: int| 0 <= i < s_cur.len() && !writes_cover(ws, w, i) ==> s_cur[i] == s_old[i],
    ensures
        apply_writes(s_cur, w, ws) == s_old,
{
    let res = apply_writes(s_cur, w, ws);
    lemma_apply_writes_len(s_cur, w, h, ws);
    assert forall|i: int| 0 <= i < res.len() implies res[i] == s_old[i] by {
        if writes_cover(ws, w, i) {
            let k = choose|k: int| 0 <= k < ws.len() && #[trigger] write_idx(w, ws[k]) == i;
            lemma_apply_writes_hit(s_cur, w, h, ws, k);
        } else {
            lemma_apply_writes_unchanged(s_cur, w, h, ws, i);
        }
    }
    assert(res =~= s_old);
}

/// Undo and redo are a strict inverse pair at the buffer level: a
/// command that performs `ws` on `s` is reversed exactly by the record
/// that captured the prior colors, and performing `ws` again re-yields
/// the command's result.
pub proof fn lemma_writes_roundtrip(
    s: Seq<Color>,
    w: int,
    h: int,
    ws: Seq<PixelWrite>,
    undo_ws: Seq<PixelWrite>,
)
    requires
        s.len() == w * h,
        1 <= w <= 0xffff,
        1 <= h <= 0xffff,
        writes_valid(ws, w, h),
        writes_unique(ws, w),
        undo_ws.len() == ws.len(),
        forall|k: int|
            0 <= k < ws.len() ==> (#[trigger] undo_ws[k]).x == ws[k].x && undo_ws[k].y == ws[k].y
                && undo_ws[k].color == s[write_idx(w, ws[k])],
    ensures
        apply_writes(apply_writes(s, w, ws), w, undo_ws) == s,
        apply_writes(apply_writes(apply_writes(s, w, ws), w, undo_ws), w, ws) == apply_writes(
            s,
            w,
            ws,
        ),
{
    let s1 = apply_writes(s, w, ws);
    lemma_apply_writes_len(s, w, h, ws);
    assert forall|k: int| 0 <= k < undo_ws.len() implies #[trigger] write_idx(w, undo_ws[k])
        == write_idx(w, ws[k]) by {}
    assert(writes_valid(undo_ws, w, h));
    assert(writes_unique(undo_ws, w));
    assert forall|i: int| 0 <= i < s1.len() && !writes_cover(undo_ws, w, i) implies s1[i]
        == s[i] by {
        if writes_cover(ws, w, i) {
            let k = choose|k: int| 0 <= k < ws.len() && #[trigger] write_idx(w, ws[k]) == i;
            assert(write_idx(w, undo_ws[k]) == i);
        } else {
            lemma_apply_writes_unchanged(s, w, h, ws, i);
        }
    }
    lemma_apply_writes_restores(s, s1, w, h, undo_ws);
}

/// What a pixel-mutating command pushes onto the history: enough to
/// reverse it. `layer` is the index the command acted on.
#[derive(Debug)]
pub enum Reversible {
    /// A sparse list of prior pixels, for pixel-level commands.
    Pixels { layer: usize, writes: Vec<PixelWrite> },
    /// The whole prior bitmap, for layer-wide commands.
    WholeLayer { layer: usize, bitmap: Bitmap },
}

impl Reversible {
    /// The layer this record restores.
    pub open spec fn layer_spec(self) -> int {
        match self {
            Reversible::Pixels { layer, .. } => layer as int,
            Reversible::WholeLayer { layer, .. } => layer as int,
        }
    }

    /// Whether the record can be applied to a stack of `n` layers of
    /// dimensions `w` x `h`.
    pub open spec fn valid(self, n: int, w: int, h: int) -> bool {
        match self {
            Reversible::Pixels { layer, writes } => {
                &&& layer < n
                &&& writes_valid(writes@, w, h)
                &&& writes_unique(writes@, w)
            },
            Reversible::WholeLayer { layer, bitmap } => {
                &&& layer < n
                &&& bitmap.wf()
                &&& bitmap.wd() == w
                &&& bitmap.ht() == h
            },
        }
    }

    /// The buffer that applying this record to `s` produces.
    pub open spec fn apply_pix(self, s: Seq<Color>, w: int) -> Seq<Color> {
        match self {
            Reversible::Pixels { writes, .. } => apply_writes(s, w, writes@),
            Reversible::WholeLayer { bitmap, .. } => bitmap.pix(),
        }
    }
}

} // verus!
