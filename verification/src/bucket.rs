//! Bucket fill: 4-connected flood fill from an origin pixel.

use vstd::prelude::*;
use crate::bitmap::Bitmap;
use crate::bitmap::{lemma_index_bound, lemma_index_injective};
use crate::history::{PixelWrite, apply_writes, lemma_apply_writes_restores, write_idx, writes_cover, writes_unique, writes_valid};
use crate::primitives::Color;

verus! {

/// 4-neighborhood adjacency.
pub open spec fn adjacent4(x1: int, y1: int, x2: int, y2: int) -> bool {
    (x1 == x2 && (y2 == y1 + 1 || y2 == y1 - 1)) || (y1 == y2 && (x2 == x1 + 1 || x2 == x1 - 1))
}

/// A pixel the fill painted: it held the origin's color `c0` before and
/// holds the fill color after.
pub open spec fn filled(
    oldb: Bitmap,
    newb: Bitmap,
    c0: Color,
    color: Color,
    x: int,
    y: int,
) -> bool {
    oldb.at(x, y) == c0 && newb.at(x, y) == color
}

/// A 4-connected walk from (ax, ay) to (bx, by) that stays on
/// in-bounds pixels of color `c0`.
pub open spec fn path_connects(
    oldb: Bitmap,
    c0: Color,
    path: Seq<(int, int)>,
    ax: int,
    ay: int,
    bx: int,
    by: int,
) -> bool {
    &&& path.len() >= 1
    &&& path[0] == (ax, ay)
    &&& path.last() == (bx, by)
    &&& forall|i: int|
        0 <= i < path.len() ==> oldb.in_bounds((#[trigger] path[i]).0, path[i].1) && oldb.at(
            path[i].0,
            path[i].1,
        ) == c0
    &&& forall|i: int|
        0 <= i < path.len() - 1 ==> adjacent4(
            (#[trigger] path[i]).0,
            path[i].1,
            path[i + 1].0,
            path[i + 1].1,
        )
}

/// Whether (x, y) is 4-connected to (ox, oy) through pixels of color
/// `c0` in the original bitmap.
pub open spec fn reachable(oldb: Bitmap, c0: Color, ox: int, oy: int, x: int, y: int) -> bool {
    exists|path: Seq<(int, int)>| path_connects(oldb, c0, path, ox, oy, x, y)
}

/// Reachability extends along one matching neighbor.
proof fn lemma_reach_step(
    oldb: Bitmap,
    c0: Color,
    ox: int,
    oy: int,
    px: int,
    py: int,
    nx: int,
    ny: int,
)
    requires
        reachable(oldb, c0, ox, oy, px, py),
        oldb.in_bounds(nx, ny),
        oldb.at(nx, ny) == c0,
        adjacent4(px, py, nx, ny),
    ensures
        reachable(oldb, c0, ox, oy, nx, ny),
{
    let path = choose|path: Seq<(int, int)>| path_connects(oldb, c0, path, ox, oy, px, py);
    let extended = path.push((nx, ny));
    assert(extended[0] == path[0]);
    assert(extended.last() == (nx, ny));
    assert forall|i: int|
        0 <= i < extended.len() implies oldb.in_bounds((#[trigger] extended[i]).0, extended[i].1) && oldb.at(
        extended[i].0,
        extended[i].1,
    ) == c0 by {
        if i < path.len() {
            assert(extended[i] == path[i]);
        }
    }
    assert forall|i: int|
        0 <= i < extended.len() - 1 implies adjacent4(
        (#[trigger] extended[i]).0,
        extended[i].1,
        extended[i + 1].0,
        extended[i + 1].1,
    ) by {
        if i < path.len() - 1 {
            assert(extended[i] == path[i]);
            assert(extended[i + 1] == path[i + 1]);
        } else {
            assert(extended[i] == path.last());
            assert(extended[i + 1] == (nx, ny));
        }
    }
    assert(path_connects(oldb, c0, extended, ox, oy, nx, ny));
}

/// Walking a path from the painted origin, the closure property paints
/// every pixel along it.
proof fn lemma_path_filled(
    oldb: Bitmap,
    newb: Bitmap,
    c0: Color,
    color: Color,
    path: Seq<(int, int)>,
    ox: int,
    oy: int,
    x: int,
    y: int,
)
    requires
        path_connects(oldb, c0, path, ox, oy, x, y),
        filled(oldb, newb, c0, color, ox, oy),
        forall|u: int, v: int, nu: int, nv: int|
            oldb.in_bounds(u, v) && filled(oldb, newb, c0, color, u, v) && oldb.in_bounds(nu, nv)
                && #[trigger] adjacent4(u, v, nu, nv) && oldb.at(nu, nv) == c0 ==> filled(
                oldb,
                newb,
                c0,
                color,
                nu,
                nv,
            ),
    ensures
        filled(oldb, newb, c0, color, x, y),
    decreases path.len(),
{
    if path.len() == 1 {
        assert(path[0] == (ox, oy));
        assert(path.last() == (x, y));
    } else {
        let prefix = path.drop_last();
        let prev = path[path.len() - 2];
        assert forall|i: int|
            0 <= i < prefix.len() implies (#[trigger] prefix[i]) == path[i] by {}
        assert(prefix.last() == prev);
        assert(path_connects(oldb, c0, prefix, ox, oy, prev.0, prev.1));
        lemma_path_filled(oldb, newb, c0, color, prefix, ox, oy, prev.0, prev.1);
        assert(adjacent4(prev.0, prev.1, path[path.len() - 1].0, path[path.len() - 1].1));
        assert(oldb.in_bounds(x, y) && oldb.at(x, y) == c0);
    }
}

/// How many entries of `s` are true.
pub open spec fn count_trues(s: Seq<bool>) -> int
    decreases s.len(),
{
    if s.len() == 0 {
        0
    } else {
        count_trues(s.drop_last()) + if s.last() {
            1int
        } else {
            0int
        }
    }
}

proof fn lemma_count_trues_bounds(s: Seq<bool>)
    ensures
        0 <= count_trues(s) <= s.len(),
    decreases s.len(),
{
    if s.len() > 0 {
        lemma_count_trues_bounds(s.drop_last());
    }
}

/// Marking one false entry true raises the count by one.
proof fn lemma_count_trues_update(s: Seq<bool>, i: int)
    requires
        0 <= i < s.len(),
        !s[i],
    ensures
        count_trues(s.update(i, true)) == count_trues(s) + 1,
    decreases s.len(),
{
    let t = s.update(i, true);
    if i == s.len() - 1 {
        assert(t.drop_last() =~= s.drop_last());
    } else {
        assert(t.drop_last() =~= s.drop_last().update(i, true));
        lemma_count_trues_update(s.drop_last(), i);
    }
}

/// Whether the coordinate pair appears on the work stack.
pub open spec fn in_stack(stack: Seq<(u16, u16)>, x: int, y: int) -> bool {
    exists|k: int|
        0 <= k < stack.len() && (#[trigger] stack[k]).0 as int == x && stack[k].1 as int == y
}

/// The flood-fill invariant, tying together the bitmap, the visited
/// map, the work stack and the undo record. `exc` names a pixel whose
/// neighbor-closure obligation is deferred: the pixel being expanded.
spec fn fill_inv_core(
    oldb: Bitmap,
    bm: Bitmap,
    visited: Seq<bool>,
    stack: Seq<(u16, u16)>,
    undo: Seq<PixelWrite>,
    c0: Color,
    color: Color,
    ox: int,
    oy: int,
    exc: Option<(int, int)>,
) -> bool {
    let w = oldb.wd();
    let h = oldb.ht();
    &&& oldb.wf()
    &&& bm.wf()
    &&& bm.same_dims(oldb)
    &&& visited.len() == w * h
    &&& c0 != color
    &&& oldb.in_bounds(ox, oy)
    &&& oldb.at(ox, oy) == c0
    &&& visited[oy * w + ox]
    // stack entries: in bounds, visited, matching, not yet written
    &&& forall|k: int|
        0 <= k < stack.len() ==> {
            let sx = (#[trigger] stack[k]).0 as int;
            let sy = stack[k].1 as int;
            &&& oldb.in_bounds(sx, sy)
            &&& visited[sy * w + sx]
            &&& oldb.at(sx, sy) == c0
            &&& !writes_cover(undo, w, sy * w + sx)
        }
        // stack entries are pairwise distinct
    &&& forall|k: int, l: int|
        0 <= k < l < stack.len() ==> #[trigger] stack[k] != #[trigger] stack[l]
        // undo record: valid, unique, captures the original colors, covers only visited pixels
    &&& writes_valid(undo, w, h)
    &&& writes_unique(undo, w)
    &&& forall|k: int|
        0 <= k < undo.len() ==> {
            let p = #[trigger] undo[k];
            &&& p.color == oldb.pix()[write_idx(w, p)]
            &&& visited[write_idx(w, p)]
        }
        // visited pixels match c0 and are written or still queued
    &&& forall|x: int, y: int|
        oldb.in_bounds(x, y) && visited[y * w + x] ==> #[trigger] oldb.at(x, y) == c0 && (
        writes_cover(undo, w, y * w + x) || in_stack(stack, x, y))
    // visited pixels are connected to the origin
    &&& forall|x: int, y: int|
        oldb.in_bounds(x, y) && visited[y * w + x] ==> reachable(oldb, c0, ox, oy, x, y)
    // the bitmap: written pixels hold the fill color, the rest the old value
    &&& forall|x: int, y: int|
        oldb.in_bounds(x, y) ==> #[trigger] bm.at(x, y) == (if writes_cover(undo, w, y * w + x) {
            color
        } else {
            oldb.at(x, y)
        })
    // closure: matching neighbors of written pixels are visited
    &&& forall|x: int, y: int, nx: int, ny: int|
        oldb.in_bounds(x, y) && #[trigger] writes_cover(undo, w, y * w + x) && oldb.in_bounds(
            nx,
            ny,
        ) && #[trigger] adjacent4(x, y, nx, ny) && oldb.at(nx, ny) == c0 && !(exc matches Some(
            e,
        ) && e.0 == x && e.1 == y) ==> visited[ny * w + nx]
}

/// Examines one in-bounds neighbor during expansion: a not yet visited
/// pixel that still shows the origin color is marked visited and queued.
fn probe_neighbor(
    bm: &Bitmap,
    visited: &mut Vec<bool>,
    stack: &mut Vec<(u16, u16)>,
    width: u16,
    nx: u16,
    ny: u16,
    c0: Color,
    color: Color,
    Ghost(oldb): Ghost<Bitmap>,
    Ghost(undo): Ghost<Seq<PixelWrite>>,
    Ghost(origin): Ghost<(int, int)>,
    Ghost(exc): Ghost<(int, int)>,
) -> (marked: bool)
    requires
        fill_inv_core(
            oldb,
            *bm,
            old(visited)@,
            old(stack)@,
            undo,
            c0,
            color,
            origin.0,
            origin.1,
            Some(exc),
        ),
        width as int == oldb.wd(),
        oldb.in_bounds(nx as int, ny as int),
        oldb.in_bounds(exc.0, exc.1),
        old(visited)@[exc.1 * oldb.wd() + exc.0],
        adjacent4(exc.0, exc.1, nx as int, ny as int),
    ensures
        fill_inv_core(
            oldb,
            *bm,
            final(visited)@,
            final(stack)@,
            undo,
            c0,
            color,
            origin.0,
            origin.1,
            Some(exc),
        ),
        final(visited)@.len() == old(visited)@.len(),
        forall|i: int|
            0 <= i < old(visited)@.len() && old(visited)@[i] ==> final(visited)@[i],
        oldb.at(nx as int, ny as int) == c0 ==> final(visited)@[ny as int * oldb.wd() + nx as int],
        !marked ==> final(visited)@ == old(visited)@ && final(stack)@ == old(stack)@,
        marked ==> count_trues(final(visited)@) == count_trues(old(visited)@) + 1
            && final(stack)@ == old(stack)@.push((nx, ny)),
{
    let ghost w = oldb.wd();
    let ghost h = oldb.ht();
    proof {
        lemma_index_bound(nx as int, ny as int, w, h);
    }
    let nidx: usize = ny as usize * width as usize + nx as usize;
    if visited[nidx] {
        return false;
    }
    let cur: Color = bm.pixel(nx, ny);
    if !(cur == c0) {
        proof {
            // unvisited pixels are unwritten, so the bitmap still shows
            // the original color there
            if writes_cover(undo, w, nidx as int) {
                let k = choose|k: int|
                    0 <= k < undo.len() && #[trigger] write_idx(w, undo[k]) == nidx as int;
                assert(old(visited)@[write_idx(w, undo[k])]);
            }
            assert(oldb.at(nx as int, ny as int) != c0);
        }
        return false;
    }
    proof {
        if writes_cover(undo, w, nidx as int) {
            let k = choose|k: int|
                0 <= k < undo.len() && #[trigger] write_idx(w, undo[k]) == nidx as int;
            assert(old(visited)@[write_idx(w, undo[k])]);
        }
        assert(oldb.at(nx as int, ny as int) == c0);
    }
    let ghost prev_visited = visited@;
    let ghost prev_stack = stack@;
    visited.set(nidx, true);
    stack.push((nx, ny));
    proof {
        lemma_count_trues_update(prev_visited, nidx as int);
        // queued pixels stay queued: the same index witnesses membership
        assert forall|x: int, y: int|
            oldb.in_bounds(x, y) && in_stack(prev_stack, x, y) implies in_stack(
            stack@,
            x,
            y,
        ) by {
            let k = choose|k: int|
                0 <= k < prev_stack.len() && (#[trigger] prev_stack[k]).0 as int == x
                    && prev_stack[k].1 as int == y;
            assert((stack@[k]).0 as int == x && stack@[k].1 as int == y);
        }
        // every old stack slot is unchanged by the push
        assert forall|k: int| 0 <= k < prev_stack.len() implies #[trigger] stack@[k]
            == prev_stack[k] by {}
        assert(stack@[stack@.len() - 1] == (nx, ny));
        // the fresh entry was unvisited, so it is on no earlier stack slot
        assert forall|k: int, l: int|
            0 <= k < l < stack@.len() implies #[trigger] stack@[k] != #[trigger] stack@[l] by {
            if l == stack@.len() - 1 {
                if stack@[k] == (nx, ny) {
                    assert(prev_stack[k] == (nx, ny));
                    assert(prev_visited[ny as int * w + nx as int]);
                }
            }
        }
        assert(in_stack(stack@, nx as int, ny as int)) by {
            assert((stack@[stack@.len() - 1]).0 as int == nx as int);
        }
        // previously true entries of the visited map stay true
        assert(visited@[origin.1 * w + origin.0]) by {
            lemma_index_bound(origin.0, origin.1, w, h);
        }
        assert forall|k: int|
            0 <= k < stack@.len() implies {
            let sx = (#[trigger] stack@[k]).0 as int;
            let sy = stack@[k].1 as int;
            &&& oldb.in_bounds(sx, sy)
            &&& visited@[sy * w + sx]
            &&& oldb.at(sx, sy) == c0
            &&& !writes_cover(undo, w, sy * w + sx)
        } by {
            if k < prev_stack.len() {
                assert(stack@[k] == prev_stack[k]);
                let sx = stack@[k].0 as int;
                let sy = stack@[k].1 as int;
                lemma_index_bound(sx, sy, w, h);
                assert(prev_visited[sy * w + sx]);
            } else {
                assert(stack@[k] == (nx, ny));
                lemma_index_bound(nx as int, ny as int, w, h);
            }
        }
        assert forall|k: int|
            0 <= k < undo.len() implies {
            let q = #[trigger] undo[k];
            &&& q.color == oldb.pix()[write_idx(w, q)]
            &&& visited@[write_idx(w, q)]
        } by {
            lemma_index_bound(undo[k].x as int, undo[k].y as int, w, h);
            assert(prev_visited[write_idx(w, undo[k])]);
        }
        assert forall|x: int, y: int|
            oldb.in_bounds(x, y) && visited@[y * w + x] implies reachable(
            oldb,
            c0,
            origin.0,
            origin.1,
            x,
            y,
        ) by {
            lemma_index_bound(x, y, w, h);
            lemma_index_bound(exc.0, exc.1, w, h);
            if y * w + x == nidx as int {
                lemma_index_injective(x, y, nx as int, ny as int, w);
                assert(prev_visited[exc.1 * w + exc.0]);
                assert(reachable(oldb, c0, origin.0, origin.1, exc.0, exc.1));
                lemma_reach_step(oldb, c0, origin.0, origin.1, exc.0, exc.1, nx as int, ny as int);
            } else {
                assert(prev_visited[y * w + x]);
                assert(reachable(oldb, c0, origin.0, origin.1, x, y));
            }
        }
        assert forall|x: int, y: int|
            oldb.in_bounds(x, y) && visited@[y * w + x] implies #[trigger] oldb.at(x, y) == c0 && (
        writes_cover(undo, w, y * w + x) || in_stack(stack@, x, y)) by {
            lemma_index_bound(x, y, w, h);
            if y * w + x == nidx as int {
                lemma_index_injective(x, y, nx as int, ny as int, w);
                assert(in_stack(stack@, x, y));
            } else {
                assert(prev_visited[y * w + x]);
                assert(oldb.at(x, y) == c0);
                if !writes_cover(undo, w, y * w + x) {
                    assert(in_stack(prev_stack, x, y));
                    assert(in_stack(stack@, x, y));
                }
            }
        }
    }
    true
}

/// After popping (px, py) from the queue, recording its prior color
/// and painting it, the invariant holds again, with the closure
/// obligation deferred for (px, py) until its neighbors are examined.
proof fn lemma_expand_pop(
    oldb: Bitmap,
    entry_bm: Bitmap,
    bm: Bitmap,
    visited: Seq<bool>,
    entry_stack: Seq<(u16, u16)>,
    stack: Seq<(u16, u16)>,
    entry_undo: Seq<PixelWrite>,
    undo: Seq<PixelWrite>,
    c0: Color,
    color: Color,
    ox: int,
    oy: int,
    px: u16,
    py: u16,
    prior: Color,
)
    requires
        fill_inv_core(oldb, entry_bm, visited, entry_stack, entry_undo, c0, color, ox, oy, None),
        entry_stack.len() >= 1,
        entry_stack.last() == (px, py),
        stack == entry_stack.drop_last(),
        undo == entry_undo.push(PixelWrite { x: px, y: py, color: prior }),
        prior == entry_bm.at(px as int, py as int),
        bm.wf(),
        bm.same_dims(entry_bm),
        bm.at(px as int, py as int) == color,
        forall|x: int, y: int|
            oldb.in_bounds(x, y) && !(x == px as int && y == py as int) ==> bm.at(x, y)
                == entry_bm.at(x, y),
    ensures
        fill_inv_core(oldb, bm, visited, stack, undo, c0, color, ox, oy, Some((px as int, py as int))),
        prior == oldb.at(px as int, py as int),
{
    let w = oldb.wd();
    let h = oldb.ht();
    let pidx = py as int * w + px as int;
    lemma_index_bound(px as int, py as int, w, h);
    assert(entry_stack[entry_stack.len() - 1] == (px, py));
    assert(!writes_cover(entry_undo, w, pidx));
    assert(prior == oldb.at(px as int, py as int));
    // coverage after the push: the old indices plus pidx
    assert forall|i: int| writes_cover(entry_undo, w, i) implies writes_cover(undo, w, i) by {
        let k = choose|k: int|
            0 <= k < entry_undo.len() && #[trigger] write_idx(w, entry_undo[k]) == i;
        assert(write_idx(w, undo[k]) == i);
    }
    assert(writes_cover(undo, w, pidx)) by {
        assert(write_idx(w, undo[undo.len() - 1]) == pidx);
    }
    assert forall|i: int|
        writes_cover(undo, w, i) && i != pidx implies writes_cover(entry_undo, w, i) by {
        let k = choose|k: int| 0 <= k < undo.len() && #[trigger] write_idx(w, undo[k]) == i;
        assert(write_idx(w, entry_undo[k]) == i);
    }
    // uniqueness: pidx was uncovered before the push
    assert(writes_unique(undo, w)) by {
        assert forall|k: int, l: int|
            0 <= k < l < undo.len() implies #[trigger] write_idx(w, undo[k]) != #[trigger] write_idx(
            w,
            undo[l],
        ) by {
            if l == undo.len() - 1 {
                if write_idx(w, undo[k]) == pidx {
                    assert(write_idx(w, entry_undo[k]) == pidx);
                    assert(writes_cover(entry_undo, w, pidx));
                }
            }
        }
    }
    // the popped pixel leaves the queue: everything else queued stays
    assert forall|x: int, y: int|
        oldb.in_bounds(x, y) && in_stack(entry_stack, x, y) && !(x == px as int && y == py as int)
        implies in_stack(stack, x, y) by {
        let k = choose|k: int|
            0 <= k < entry_stack.len() && (#[trigger] entry_stack[k]).0 as int == x
                && entry_stack[k].1 as int == y;
        assert(k < entry_stack.len() - 1);
        assert((stack[k]).0 as int == x && stack[k].1 as int == y);
    }
    assert forall|k: int|
        0 <= k < stack.len() implies {
        let sx = (#[trigger] stack[k]).0 as int;
        let sy = stack[k].1 as int;
        &&& oldb.in_bounds(sx, sy)
        &&& visited[sy * w + sx]
        &&& oldb.at(sx, sy) == c0
        &&& !writes_cover(undo, w, sy * w + sx)
    } by {
        assert(entry_stack[k] == stack[k]);
        let sx = stack[k].0 as int;
        let sy = stack[k].1 as int;
        if writes_cover(undo, w, sy * w + sx) {
            if sy * w + sx == pidx {
                lemma_index_injective(sx, sy, px as int, py as int, w);
                assert(entry_stack[k] == entry_stack[entry_stack.len() - 1]);
            }
        }
    }
    assert forall|x: int, y: int|
        oldb.in_bounds(x, y) && visited[y * w + x] implies #[trigger] oldb.at(x, y) == c0 && (
    writes_cover(undo, w, y * w + x) || in_stack(stack, x, y)) by {
        lemma_index_bound(x, y, w, h);
        assert(oldb.at(x, y) == c0);
        if writes_cover(entry_undo, w, y * w + x) {
            assert(writes_cover(undo, w, y * w + x));
        } else {
            if x == px as int && y == py as int {
                assert(writes_cover(undo, w, pidx));
            } else {
                assert(in_stack(entry_stack, x, y));
                assert(in_stack(stack, x, y));
            }
        }
    }
    assert forall|k: int|
        0 <= k < undo.len() implies {
        let q = #[trigger] undo[k];
        &&& q.color == oldb.pix()[write_idx(w, q)]
        &&& visited[write_idx(w, q)]
    } by {
        if k < undo.len() - 1 {
            assert(undo[k] == entry_undo[k]);
        } else {
            assert(undo[k] == (PixelWrite { x: px, y: py, color: prior }));
            assert(oldb.pix()[pidx] == oldb.at(px as int, py as int));
            assert(visited[pidx]);
        }
    }
    assert forall|x: int, y: int, nx2: int, ny2: int|
        oldb.in_bounds(x, y) && #[trigger] writes_cover(undo, w, y * w + x) && oldb.in_bounds(
            nx2,
            ny2,
        ) && #[trigger] adjacent4(x, y, nx2, ny2) && oldb.at(nx2, ny2) == c0 && !(x == px as int
        && y == py as int) implies visited[ny2 * w + nx2] by {
        lemma_index_bound(x, y, w, h);
        lemma_index_bound(nx2, ny2, w, h);
        if y * w + x == pidx {
            lemma_index_injective(x, y, px as int, py as int, w);
        } else {
            assert(writes_cover(entry_undo, w, y * w + x));
            assert(visited[ny2 * w + nx2]);
        }
    }
    assert forall|x: int, y: int|
        oldb.in_bounds(x, y) implies #[trigger] bm.at(x, y) == (if writes_cover(undo, w, y * w + x) {
        color
    } else {
        oldb.at(x, y)
    }) by {
        lemma_index_bound(x, y, w, h);
        assert(entry_bm.at(x, y) == (if writes_cover(entry_undo, w, y * w + x) {
            color
        } else {
            oldb.at(x, y)
        }));
        if y * w + x == pidx {
            lemma_index_injective(x, y, px as int, py as int, w);
            assert(bm.at(x, y) == color);
            assert(writes_cover(undo, w, y * w + x));
        } else {
            assert(bm.at(x, y) == entry_bm.at(x, y));
            if writes_cover(undo, w, y * w + x) {
                assert(writes_cover(entry_undo, w, y * w + x));
            }
        }
    }
}

/// Once every matching in-bounds neighbor of the expanded pixel is
/// visited, the deferred closure obligation is discharged.
proof fn lemma_close_expansion(
    oldb: Bitmap,
    bm: Bitmap,
    visited: Seq<bool>,
    stack: Seq<(u16, u16)>,
    undo: Seq<PixelWrite>,
    c0: Color,
    color: Color,
    ox: int,
    oy: int,
    px: u16,
    py: u16,
)
    requires
        fill_inv_core(oldb, bm, visited, stack, undo, c0, color, ox, oy, Some((px as int, py as int))),
        forall|nx: int, ny: int|
            oldb.in_bounds(nx, ny) && #[trigger] adjacent4(px as int, py as int, nx, ny)
                && oldb.at(nx, ny) == c0 ==> visited[ny * oldb.wd() + nx],
    ensures
        fill_inv_core(oldb, bm, visited, stack, undo, c0, color, ox, oy, None),
{
    let w = oldb.wd();
    let h = oldb.ht();
    assert forall|x: int, y: int, nx: int, ny: int|
        oldb.in_bounds(x, y) && #[trigger] writes_cover(undo, w, y * w + x) && oldb.in_bounds(
            nx,
            ny,
        ) && #[trigger] adjacent4(x, y, nx, ny) && oldb.at(nx, ny) == c0 implies visited[ny * w
        + nx] by {
        if x == px as int && y == py as int {
            assert(adjacent4(px as int, py as int, nx, ny));
        }
    }
}

/// Flood fill: starting from (ox, oy), repaints in `color` the pixels
/// that share the origin's color and are 4-connected to it through such
/// pixels. Returns the sparse undo record: performing it on the result
/// restores the original buffer. Filling with the color the origin
/// already has is a no-op.
#[verifier::rlimit(60)]
#[verifier::loop_isolation(false)]
pub fn flood_fill(bm: &mut Bitmap, ox: u16, oy: u16, color: Color) -> (undo: Vec<PixelWrite>)
    requires
        old(bm).wf(),
        old(bm).in_bounds(ox as int, oy as int),
    ensures
        final(bm).wf(),
        final(bm).same_dims(*old(bm)),
        old(bm).at(ox as int, oy as int) == color ==> *final(bm) == *old(bm) && undo@.len() == 0,
        old(bm).at(ox as int, oy as int) != color ==> {
            let c0 = old(bm).at(ox as int, oy as int);
            &&& filled(*old(bm), *final(bm), c0, color, ox as int, oy as int)
            &&& forall|x: int, y: int|
                old(bm).in_bounds(x, y) ==> filled(*old(bm), *final(bm), c0, color, x, y)
                    || final(bm).at(x, y) == old(bm).at(x, y)
            &&& forall|x: int, y: int, nx: int, ny: int|
                old(bm).in_bounds(x, y) && filled(*old(bm), *final(bm), c0, color, x, y)
                    && old(bm).in_bounds(nx, ny) && #[trigger] adjacent4(x, y, nx, ny) && old(bm).at(nx, ny)
                    == c0 ==> filled(*old(bm), *final(bm), c0, color, nx, ny)
            &&& forall|u: int, v: int|
                old(bm).in_bounds(u, v) ==> (filled(*old(bm), *final(bm), c0, color, u, v)
                    <==> reachable(*old(bm), c0, ox as int, oy as int, u, v))
        },
        writes_valid(undo@, old(bm).wd(), old(bm).ht()),
        writes_unique(undo@, old(bm).wd()),
        apply_writes(final(bm).pix(), old(bm).wd(), undo@) == old(bm).pix(),
{
    let ghost oldb = *old(bm);
    let ghost w = old(bm).wd();
    let ghost h = old(bm).ht();
    let width: u16 = bm.width();
    let c0: Color = bm.pixel(ox, oy);
    let mut undo: Vec<PixelWrite> = Vec::new();
    if c0 == color {
        return undo;
    }

    proof {
        lemma_index_bound(0, 0, w, h);
    }
    let n: usize = width as usize * bm.height() as usize;
    let mut visited: Vec<bool> = Vec::new();
    while visited.len() < n
        invariant
            visited@.len() <= n,
            n == w * h,
            forall|i: int| 0 <= i < visited@.len() ==> !(#[trigger] visited@[i]),
        decreases n - visited@.len(),
    {
        visited.push(false);
    }

    let mut stack: Vec<(u16, u16)> = Vec::new();
    proof {
        lemma_index_bound(ox as int, oy as int, w, h);
    }
    let oidx: usize = oy as usize * width as usize + ox as usize;
    visited.set(oidx, true);
    stack.push((ox, oy));
    proof {
        assert(in_stack(stack@, ox as int, oy as int)) by {
            assert((stack@[0]).0 as int == ox as int);
        }
        assert(reachable(oldb, c0, ox as int, oy as int, ox as int, oy as int)) by {
            let p = seq![(ox as int, oy as int)];
            assert(p[0] == (ox as int, oy as int));
            assert(p.last() == (ox as int, oy as int));
            assert(path_connects(oldb, c0, p, ox as int, oy as int, ox as int, oy as int));
        }
        assert forall|x: int, y: int|
            oldb.in_bounds(x, y) && visited@[y * w + x] implies reachable(
            oldb,
            c0,
            ox as int,
            oy as int,
            x,
            y,
        ) by {
            lemma_index_bound(x, y, w, h);
            if y * w + x == oidx as int {
                lemma_index_injective(x, y, ox as int, oy as int, w);
            }
        }
        assert forall|x: int, y: int|
            oldb.in_bounds(x, y) && visited@[y * w + x] implies #[trigger] oldb.at(x, y) == c0 && (
        writes_cover(undo@, w, y * w + x) || in_stack(stack@, x, y)) by {
            lemma_index_bound(x, y, w, h);
            if y * w + x == oidx as int {
                lemma_index_injective(x, y, ox as int, oy as int, w);
            }
        }
    }

    while stack.len() != 0
        invariant
            fill_inv_core(oldb, *bm, visited@, stack@, undo@, c0, color, ox as int, oy as int, None),
        decreases w * h - count_trues(visited@), stack@.len(),
    {
        let ghost entry_visited = visited@;
        let ghost entry_stack = stack@;
        let ghost entry_undo = undo@;
        let ghost entry_bm = *bm;
        proof {
            lemma_count_trues_bounds(visited@);
        }
        let p: (u16, u16) = stack.pop().unwrap();
        let px: u16 = p.0;
        let py: u16 = p.1;
        proof {
            assert(entry_stack[entry_stack.len() - 1] == p);
            lemma_index_bound(px as int, py as int, w, h);
        }
        let ghost pidx = py as int * w + px as int;
        let prior: Color = bm.pixel(px, py);
        undo.push(PixelWrite { x: px, y: py, color: prior });
        bm.set_pixel(px, py, color);
        proof {
            lemma_expand_pop(
                oldb,
                entry_bm,
                *bm,
                visited@,
                entry_stack,
                stack@,
                entry_undo,
                undo@,
                c0,
                color,
                ox as int,
                oy as int,
                px,
                py,
                prior,
            );
        }

        let mut marks: u32 = 0;
        if px > 0 {
            let m = probe_neighbor(
                bm,
                &mut visited,
                &mut stack,
                width,
                px - 1,
                py,
                c0,
                color,
                Ghost(oldb),
                Ghost(undo@),
                Ghost((ox as int, oy as int)),
                Ghost((px as int, py as int)),
            );
            if m {
                marks = marks + 1;
            }
        }
        if (px as u32) + 1 < width as u32 {
            let m = probe_neighbor(
                bm,
                &mut visited,
                &mut stack,
                width,
                px + 1,
                py,
                c0,
                color,
                Ghost(oldb),
                Ghost(undo@),
                Ghost((ox as int, oy as int)),
                Ghost((px as int, py as int)),
            );
            if m {
                marks = marks + 1;
            }
        }
        if py > 0 {
            let m = probe_neighbor(
                bm,
                &mut visited,
                &mut stack,
                width,
                px,
                py - 1,
                c0,
                color,
                Ghost(oldb),
                Ghost(undo@),
                Ghost((ox as int, oy as int)),
                Ghost((px as int, py as int)),
            );
            if m {
                marks = marks + 1;
            }
        }
        if (py as u32) + 1 < bm.height() as u32 {
            let m = probe_neighbor(
                bm,
                &mut visited,
                &mut stack,
                width,
                px,
                py + 1,
                c0,
                color,
                Ghost(oldb),
                Ghost(undo@),
                Ghost((ox as int, oy as int)),
                Ghost((px as int, py as int)),
            );
            if m {
                marks = marks + 1;
            }
        }

        proof {
            // every matching in-bounds neighbor of the expanded pixel is
            // now visited, so the full closure holds again
            assert forall|nx: int, ny: int|
                oldb.in_bounds(nx, ny) && #[trigger] adjacent4(px as int, py as int, nx, ny)
                    && oldb.at(nx, ny) == c0 implies visited@[ny * w + nx] by {
                lemma_index_bound(nx, ny, w, h);
            }
            lemma_close_expansion(
                oldb,
                *bm,
                visited@,
                stack@,
                undo@,
                c0,
                color,
                ox as int,
                oy as int,
                px,
                py,
            );
            // termination: a mark shrinks the unvisited count, a bare
            // pop shrinks the stack
            lemma_count_trues_bounds(visited@);
            if marks == 0 {
                assert(visited@ == entry_visited);
                assert(stack@ == entry_stack.drop_last());
            } else {
                assert(count_trues(visited@) >= count_trues(entry_visited) + 1);
            }
        }
    }

    proof {
        // the queue is empty: visited, written and repainted coincide
        assert forall|x: int, y: int|
            oldb.in_bounds(x, y) implies filled(oldb, *bm, c0, color, x, y) || bm.at(x, y)
            == oldb.at(x, y) by {
            lemma_index_bound(x, y, w, h);
        }
        assert(filled(oldb, *bm, c0, color, ox as int, oy as int)) by {
            lemma_index_bound(ox as int, oy as int, w, h);
        }
        assert forall|x: int, y: int, nx: int, ny: int|
            oldb.in_bounds(x, y) && filled(oldb, *bm, c0, color, x, y) && oldb.in_bounds(nx, ny)
                && #[trigger] adjacent4(x, y, nx, ny) && oldb.at(nx, ny) == c0 implies filled(
            oldb,
            *bm,
            c0,
            color,
            nx,
            ny,
        ) by {
            lemma_index_bound(x, y, w, h);
            lemma_index_bound(nx, ny, w, h);
            assert(writes_cover(undo@, w, y * w + x));
            assert(visited@[ny * w + nx]);
        }
        // exactness: the painted pixels are precisely those connected
        // to the origin through its color
        assert forall|u: int, v: int|
            oldb.in_bounds(u, v) implies (filled(oldb, *bm, c0, color, u, v) <==> reachable(
            oldb,
            c0,
            ox as int,
            oy as int,
            u,
            v,
        )) by {
            lemma_index_bound(u, v, w, h);
            if filled(oldb, *bm, c0, color, u, v) {
                assert(writes_cover(undo@, w, v * w + u));
                let k = choose|k: int|
                    0 <= k < undo@.len() && #[trigger] write_idx(w, undo@[k]) == v * w + u;
                assert(visited@[write_idx(w, undo@[k])]);
                assert(reachable(oldb, c0, ox as int, oy as int, u, v));
            }
            if reachable(oldb, c0, ox as int, oy as int, u, v) {
                let path = choose|path: Seq<(int, int)>|
                    path_connects(oldb, c0, path, ox as int, oy as int, u, v);
                lemma_path_filled(oldb, *bm, c0, color, path, ox as int, oy as int, u, v);
            }
        }
        // the undo record restores the original buffer
        assert forall|idx: int|
            0 <= idx < bm.pix().len() && !writes_cover(undo@, w, idx) implies bm.pix()[idx]
            == oldb.pix()[idx] by {
            let x = idx % w;
            let y = idx / w;
            vstd::arithmetic::div_mod::lemma_fundamental_div_mod(idx, w);
            vstd::arithmetic::div_mod::lemma_mod_bound(idx, w);
            assert(w * y + x == y * w + x) by (nonlinear_arith);
            assert(idx == y * w + x);
            assert(0 <= y < h) by (nonlinear_arith)
                requires
                    idx == y * w + x,
                    0 <= idx < w * h,
                    0 <= x < w,
                    1 <= w,
            ;
            assert(bm.at(x, y) == oldb.at(x, y));
        }
        lemma_apply_writes_restores(oldb.pix(), bm.pix(), w, h, undo@);
    }
    undo
}

/// Walking one step toward the origin keeps every pixel of a uniform
/// canvas connected to it: by induction on the Manhattan distance, the
/// fill's closure property forces every pixel to be painted.
proof fn lemma_uniform_reach(
    oldb: Bitmap,
    newb: Bitmap,
    c0: Color,
    color: Color,
    ox: int,
    oy: int,
    x: int,
    y: int,
)
    requires
        oldb.wf(),
        oldb.in_bounds(ox, oy),
        oldb.in_bounds(x, y),
        forall|u: int, v: int| oldb.in_bounds(u, v) ==> #[trigger] oldb.at(u, v) == c0,
        filled(oldb, newb, c0, color, ox, oy),
        forall|u: int, v: int, nu: int, nv: int|
            oldb.in_bounds(u, v) && filled(oldb, newb, c0, color, u, v) && oldb.in_bounds(nu, nv)
                && #[trigger] adjacent4(u, v, nu, nv) && oldb.at(nu, nv) == c0 ==> filled(
                oldb,
                newb,
                c0,
                color,
                nu,
                nv,
            ),
    ensures
        filled(oldb, newb, c0, color, x, y),
    decreases
            (if x >= ox {
                x - ox
            } else {
                ox - x
            }) + (if y >= oy {
                y - oy
            } else {
                oy - y
            }),
{
    if x == ox && y == oy {
    } else if x > ox {
        lemma_uniform_reach(oldb, newb, c0, color, ox, oy, x - 1, y);
        assert(adjacent4(x - 1, y, x, y));
    } else if x < ox {
        lemma_uniform_reach(oldb, newb, c0, color, ox, oy, x + 1, y);
        assert(adjacent4(x + 1, y, x, y));
    } else if y > oy {
        lemma_uniform_reach(oldb, newb, c0, color, ox, oy, x, y - 1);
        assert(adjacent4(x, y - 1, x, y));
    } else {
        lemma_uniform_reach(oldb, newb, c0, color, ox, oy, x, y + 1);
        assert(adjacent4(x, y + 1, x, y));
    }
}

/// Bucket fill on a canvas of a single uniform color paints every
/// pixel: the origin is painted, and the closure property that
/// [`flood_fill`] guarantees propagates the paint across the whole
/// canvas, each pixel exactly once.
pub proof fn lemma_uniform_fill(
    oldb: Bitmap,
    newb: Bitmap,
    c0: Color,
    color: Color,
    ox: int,
    oy: int,
)
    requires
        oldb.wf(),
        oldb.in_bounds(ox, oy),
        forall|u: int, v: int| oldb.in_bounds(u, v) ==> #[trigger] oldb.at(u, v) == c0,
        filled(oldb, newb, c0, color, ox, oy),
        forall|u: int, v: int, nu: int, nv: int|
            oldb.in_bounds(u, v) && filled(oldb, newb, c0, color, u, v) && oldb.in_bounds(nu, nv)
                && #[trigger] adjacent4(u, v, nu, nv) && oldb.at(nu, nv) == c0 ==> filled(
                oldb,
                newb,
                c0,
                color,
                nu,
                nv,
            ),
    ensures
        forall|x: int, y: int| oldb.in_bounds(x, y) ==> #[trigger] newb.at(x, y) == color,
{
    assert forall|x: int, y: int| oldb.in_bounds(x, y) implies #[trigger] newb.at(x, y)
        == color by {
        lemma_uniform_reach(oldb, newb, c0, color, ox, oy, x, y);
    }
}

} // verus!
