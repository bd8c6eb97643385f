//! The top-level aggregate: layers, selection, free image, tool, color,
//! palette and history, driven by [`Event`]s.

use vstd::prelude::*;
use crate::bitmap::Bitmap;
use crate::bitmap::lemma_index_bound;
use crate::canvas::Canvas;
use crate::event::{CanvasEffect, Event, Tool};
use crate::free_image::FreeImage;
use crate::history::{PixelWrite, Reversible};
use crate::layer::Layer;
use crate::primitives::{Color, Rect};

verus! {

/// What is currently selected: a rectangle of the active canvas, or the
/// detached free image.
#[derive(Clone, Copy, PartialEq, Eq, Structural, Debug)]
pub enum Selection {
    Canvas(Rect),
    FreeImage,
}

/// Whether `c` occurs in the palette.
pub open spec fn palette_has(palette: Seq<Color>, c: Color) -> bool {
    exists|k: int| 0 <= k < palette.len() && palette[k] == c
}

/// The editor state. All layers share one canvas size at all times; the
/// free image exists exactly while the selection refers to it; both
/// history stacks hold only records that the current layers can replay.
#[derive(Debug)]
pub struct State {
    layers: Vec<Layer>,
    active: usize,
    selection: Option<Selection>,
    free_image: Option<FreeImage>,
    tool: Tool,
    main_color: Color,
    palette: Vec<Color>,
    undo_stack: Vec<Reversible>,
    redo_stack: Vec<Reversible>,
    line_start: Option<(u16, u16)>,
}

impl State {
    pub closed spec fn layers_seq(self) -> Seq<Layer> {
        self.layers@
    }

    pub closed spec fn active_spec(self) -> int {
        self.active as int
    }

    pub closed spec fn sel_spec(self) -> Option<Selection> {
        self.selection
    }

    pub closed spec fn free_spec(self) -> Option<FreeImage> {
        self.free_image
    }

    pub closed spec fn tool_spec(self) -> Tool {
        self.tool
    }

    pub closed spec fn color_spec(self) -> Color {
        self.main_color
    }

    pub closed spec fn palette_seq(self) -> Seq<Color> {
        self.palette@
    }

    pub closed spec fn undo_seq(self) -> Seq<Reversible> {
        self.undo_stack@
    }

    pub closed spec fn redo_seq(self) -> Seq<Reversible> {
        self.redo_stack@
    }

    pub closed spec fn line_start_spec(self) -> Option<(u16, u16)> {
        self.line_start
    }

    /// Canvas width, shared by every layer.
    pub open spec fn wd(self) -> int {
        self.layers_seq()[0].cv().bm().wd()
    }

    /// Canvas height, shared by every layer.
    pub open spec fn ht(self) -> int {
        self.layers_seq()[0].cv().bm().ht()
    }

    /// The pixel buffer of layer `i`.
    pub open spec fn layer_pix(self, i: int) -> Seq<Color> {
        self.layers_seq()[i].cv().bm().pix()
    }

    /// The pixel of layer `i` at (x, y).
    pub open spec fn layer_at(self, i: int, x: int, y: int) -> Color {
        self.layers_seq()[i].cv().bm().at(x, y)
    }

    /// The active layer's pixel at (x, y).
    pub open spec fn at(self, x: int, y: int) -> Color {
        self.layer_at(self.active_spec(), x, y)
    }

    pub open spec fn in_bounds(self, x: int, y: int) -> bool {
        0 <= x < self.wd() && 0 <= y < self.ht()
    }

    /// All layers but `i` hold the same pixels in both states, and both
    /// states have the same layer structure.
    pub open spec fn same_layers_except(self, other: State, i: int) -> bool {
        &&& self.layers_seq().len() == other.layers_seq().len()
        &&& forall|j: int|
            0 <= j < self.layers_seq().len() && j != i ==> self.layers_seq()[j]
                == other.layers_seq()[j]
        &&& self.layers_seq()[i].cv().gx() == other.layers_seq()[i].cv().gx()
        &&& self.layers_seq()[i].cv().gy() == other.layers_seq()[i].cv().gy()
        &&& self.layers_seq()[i].is_visible() == other.layers_seq()[i].is_visible()
        &&& self.layers_seq()[i].op() == other.layers_seq()[i].op()
    }

    /// Everything but the layer stack and the history stacks agrees.
    pub open spec fn same_meta(self, other: State) -> bool {
        &&& self.active_spec() == other.active_spec()
        &&& self.sel_spec() == other.sel_spec()
        &&& self.free_spec() == other.free_spec()
        &&& self.tool_spec() == other.tool_spec()
        &&& self.color_spec() == other.color_spec()
        &&& self.palette_seq() == other.palette_seq()
        &&& self.line_start_spec() == other.line_start_spec()
    }

    /// Both states agree on every observable component.
    pub open spec fn same_state(a: State, b: State) -> bool {
        &&& a.layers_seq() == b.layers_seq()
        &&& a.active_spec() == b.active_spec()
        &&& a.sel_spec() == b.sel_spec()
        &&& a.free_spec() == b.free_spec()
        &&& a.tool_spec() == b.tool_spec()
        &&& a.color_spec() == b.color_spec()
        &&& a.palette_seq() == b.palette_seq()
        &&& a.undo_seq() == b.undo_seq()
        &&& a.redo_seq() == b.redo_seq()
        &&& a.line_start_spec() == b.line_start_spec()
    }

    /// Structural invariant of the whole state.
    pub open spec fn wf(self) -> bool {
        &&& 1 <= self.layers_seq().len()
        &&& forall|i: int| 0 <= i < self.layers_seq().len() ==> (#[trigger] self.layers_seq()[i]).wf()
        &&& forall|i: int|
            0 <= i < self.layers_seq().len() ==> (#[trigger] self.layers_seq()[i]).cv().bm().wd()
                == self.wd() && self.layers_seq()[i].cv().bm().ht() == self.ht()
        &&& 0 <= self.active_spec() < self.layers_seq().len()
        &&& (self.free_spec() is Some) <==> (self.sel_spec() == Some(Selection::FreeImage))
        &&& (self.free_spec() is Some ==> self.free_spec()->0.wf())
        &&& (self.sel_spec() matches Some(Selection::Canvas(rect)) ==> {
            &&& 1 <= rect.w
            &&& 1 <= rect.h
            &&& rect.x + rect.w <= self.wd()
            &&& rect.y + rect.h <= self.ht()
        })
        &&& forall|k: int, l: int|
            0 <= k < l < self.palette_seq().len() ==> self.palette_seq()[k]
                != self.palette_seq()[l]
        &&& forall|i: int|
            0 <= i < self.undo_seq().len() ==> (#[trigger] self.undo_seq()[i]).valid(
                self.layers_seq().len() as int,
                self.wd(),
                self.ht(),
            )
        &&& forall|i: int|
            0 <= i < self.redo_seq().len() ==> (#[trigger] self.redo_seq()[i]).valid(
                self.layers_seq().len() as int,
                self.wd(),
                self.ht(),
            )
        &&& (self.line_start_spec() matches Some(p) ==> self.in_bounds(p.0 as int, p.1 as int))
    }

    /// A fresh single-layer state: a transparent canvas of the given
    /// size, brush tool, opaque black main color, empty palette and
    /// history.
    pub fn new(width: u16, height: u16) -> (st: State)
        requires
            width >= 1,
            height >= 1,
        ensures
            st.wf(),
            st.wd() == width,
            st.ht() == height,
            st.layers_seq().len() == 1,
            st.active_spec() == 0,
            st.layers_seq()[0].is_visible(),
            st.layers_seq()[0].op() == 255,
            forall|x: int, y: int|
                st.in_bounds(x, y) ==> st.at(x, y) == Color::transparent_spec(),
            st.sel_spec() is None,
            st.free_spec() is None,
            st.tool_spec() == Tool::Brush,
            st.color_spec() == (Color { r: 0, g: 0, b: 0, a: 255 }),
            st.palette_seq().len() == 0,
            st.undo_seq().len() == 0,
            st.redo_seq().len() == 0,
            st.line_start_spec() is None,
    {
        let bitmap = Bitmap::new(width, height, Color::transparent());
        let canvas = Canvas::new(bitmap);
        let layer = Layer::new(canvas);
        let mut layers: Vec<Layer> = Vec::new();
        layers.push(layer);
        State {
            layers,
            active: 0,
            selection: None,
            free_image: None,
            tool: Tool::Brush,
            main_color: Color { r: 0, g: 0, b: 0, a: 255 },
            palette: Vec::new(),
            undo_stack: Vec::new(),
            redo_stack: Vec::new(),
            line_start: None,
        }
    }

    pub fn num_layers(&self) -> (n: usize)
        ensures
            n == self.layers_seq().len(),
    {
        self.layers.len()
    }

    pub fn active_layer(&self) -> (i: usize)
        ensures
            i as int == self.active_spec(),
    {
        self.active
    }

    pub fn layer(&self, index: usize) -> (l: &Layer)
        requires
            index < self.layers_seq().len(),
        ensures
            *l == self.layers_seq()[index as int],
    {
        &self.layers[index]
    }

    /// The canvas of layer `index`.
    pub fn layer_canvas(&self, index: usize) -> (cv: &Canvas)
        requires
            index < self.layers_seq().len(),
        ensures
            *cv == self.layers_seq()[index as int].cv(),
    {
        self.layers[index].canvas()
    }

    /// The active layer's canvas.
    pub fn canvas(&self) -> (cv: &Canvas)
        requires
            self.wf(),
        ensures
            *cv == self.layers_seq()[self.active_spec()].cv(),
    {
        self.layers[self.active].canvas()
    }

    pub fn width(&self) -> (w: u16)
        requires
            self.wf(),
        ensures
            w as int == self.wd(),
    {
        self.layers[0].canvas().width()
    }

    pub fn height(&self) -> (h: u16)
        requires
            self.wf(),
        ensures
            h as int == self.ht(),
    {
        self.layers[0].canvas().height()
    }

    pub fn selected_tool(&self) -> (t: Tool)
        ensures
            t == self.tool_spec(),
    {
        self.tool
    }

    pub fn main_color(&self) -> (c: Color)
        ensures
            c == self.color_spec(),
    {
        self.main_color
    }

    pub fn selection(&self) -> (s: Option<Selection>)
        ensures
            s == self.sel_spec(),
    {
        self.selection
    }

    pub fn free_image(&self) -> (img: &Option<FreeImage>)
        ensures
            *img == self.free_spec(),
    {
        &self.free_image
    }

    pub fn palette(&self) -> (p: &Vec<Color>)
        ensures
            p@ == self.palette_seq(),
    {
        &self.palette
    }

    /// The effective spritesheet grid of the active canvas.
    pub fn spritesheet(&self) -> (g: (u16, u16))
        requires
            self.wf(),
        ensures
            g.0 as int == self.layers_seq()[self.active_spec()].cv().grid_eff_x(),
            g.1 as int == self.layers_seq()[self.active_spec()].cv().grid_eff_y(),
    {
        self.layers[self.active].canvas().spritesheet()
    }

    /// One image per sprite cell of the active canvas.
    pub fn sprite_images(&self) -> (cells: Vec<Bitmap>)
        requires
            self.wf(),
        ensures
            cells@.len() == self.layers_seq()[self.active_spec()].cv().grid_eff_x()
                * self.layers_seq()[self.active_spec()].cv().grid_eff_y(),
            forall|gi: int, gj: int|
                0 <= gi < self.layers_seq()[self.active_spec()].cv().grid_eff_x() && 0 <= gj
                    < self.layers_seq()[self.active_spec()].cv().grid_eff_y()
                    ==> self.layers_seq()[self.active_spec()].cv().cell_matches(
                    #[trigger] cells@[gj * self.layers_seq()[self.active_spec()].cv().grid_eff_x()
                        + gi],
                    gi,
                    gj,
                ),
    {
        self.layers[self.active].canvas().sprite_images()
    }

    pub fn can_undo(&self) -> (b: bool)
        ensures
            b == (self.undo_seq().len() > 0),
    {
        self.undo_stack.len() > 0
    }

    pub fn can_redo(&self) -> (b: bool)
        ensures
            b == (self.redo_seq().len() > 0),
    {
        self.redo_stack.len() > 0
    }

    /// The color seen at (x, y): the visible layers composited
    /// bottom-to-top with `over`. Per-layer opacity is a render-time
    /// multiplier and is not applied here.
    pub open spec fn composite_upto(self, k: int, x: int, y: int) -> Color
        decreases k,
    {
        if k <= 0 {
            Color::transparent_spec()
        } else {
            let below = self.composite_upto(k - 1, x, y);
            if self.layers_seq()[k - 1].is_visible() {
                self.layer_at(k - 1, x, y).over_spec(below)
            } else {
                below
            }
        }
    }

    pub fn visible_pixel(&self, x: u16, y: u16) -> (c: Color)
        requires
            self.wf(),
            self.in_bounds(x as int, y as int),
        ensures
            c == self.composite_upto(self.layers_seq().len() as int, x as int, y as int),
    {
        let mut acc: Color = Color::transparent();
        let mut i: usize = 0;
        while i < self.layers.len()
            invariant
                self.wf(),
                self.in_bounds(x as int, y as int),
                i <= self.layers_seq().len(),
                acc == self.composite_upto(i as int, x as int, y as int),
            decreases self.layers_seq().len() - i as int,
        {
            if self.layers[i].visible() {
                let top = self.layers[i].canvas().inner().pixel(x, y);
                acc = top.over(acc);
            }
            i = i + 1;
        }
        acc
    }

    /// Whether the canvas point (x, y) lies on the current selection:
    /// the selected rectangle, or the free image's placement rectangle.
    pub fn is_on_selection(&self, x: i64, y: i64) -> (b: bool)
        requires
            self.wf(),
        ensures
            b == match self.sel_spec() {
                Some(Selection::Canvas(rect)) => rect.contains_spec(x as int, y as int),
                Some(Selection::FreeImage) => {
                    let img = self.free_spec()->0;
                    &&& img.px() <= x as int
                    &&& (x as int) < img.px() + img.bm().wd()
                    &&& img.py() <= y as int
                    &&& (y as int) < img.py() + img.bm().ht()
                },
                _ => false,
            },
    {
        match &self.selection {
            Some(Selection::Canvas(rect)) => rect.contains(x, y),
            Some(Selection::FreeImage) => {
                match &self.free_image {
                    Some(img) => {
                        let px: i64 = img.x() as i64;
                        let py: i64 = img.y() as i64;
                        let bw: i64 = img.bitmap().width() as i64;
                        let bh: i64 = img.bitmap().height() as i64;
                        x >= px && x < px + bw && y >= py && y < py + bh
                    },
                    _ => false,
                }
            },
            _ => false,
        }
    }

    /// The palette after a draw with color `c`: unchanged if `c` is
    /// already present, else `c` appended (first-use order).
    pub open spec fn palette_after(p: Seq<Color>, c: Color) -> Seq<Color> {
        if palette_has(p, c) {
            p
        } else {
            p.push(c)
        }
    }

    /// Layer `i`'s pixel at (x, y) once the free image (if any) is
    /// committed onto the active layer at its placement rectangle.
    pub open spec fn merged_at(self, i: int, x: int, y: int) -> Color {
        if i == self.active_spec() && self.free_spec() is Some {
            let img = self.free_spec()->0;
            if img.px() <= x < img.px() + img.bm().wd() && img.py() <= y < img.py()
                + img.bm().ht() {
                img.bm().at(x - img.px(), y - img.py()).over_spec(self.layer_at(i, x, y))
            } else {
                self.layer_at(i, x, y)
            }
        } else {
            self.layer_at(i, x, y)
        }
    }

    /// `rect` clipped to a `w` x `h` canvas; a degenerate result has
    /// zero width.
    pub open spec fn clip_rect(rect: Rect, w: int, h: int) -> Rect {
        let x2 = if rect.x + rect.w <= w {
            rect.x + rect.w
        } else {
            w
        };
        let y2 = if rect.y + rect.h <= h {
            rect.y + rect.h
        } else {
            h
        };
        if rect.x < w && rect.y < h && rect.w >= 1 && rect.h >= 1 {
            (Rect { x: rect.x, y: rect.y, w: (x2 - rect.x) as u16, h: (y2 - rect.y) as u16 })
        } else {
            (Rect { x: 0, y: 0, w: 0, h: 0 })
        }
    }

    /// The state is freshly initialized at the given size, as
    /// [`State::new`] builds it.
    pub open spec fn is_fresh(self, w: int, h: int) -> bool {
        &&& self.wd() == w
        &&& self.ht() == h
        &&& self.layers_seq().len() == 1
        &&& self.active_spec() == 0
        &&& forall|x: int, y: int|
            self.in_bounds(x, y) ==> self.at(x, y) == Color::transparent_spec()
        &&& self.layers_seq()[0].is_visible()
        &&& self.layers_seq()[0].op() == 255
        &&& self.sel_spec() is None
        &&& self.free_spec() is None
        &&& self.tool_spec() == Tool::Brush
        &&& self.palette_seq().len() == 0
        &&& self.undo_seq().len() == 0
        &&& self.redo_seq().len() == 0
        &&& self.line_start_spec() is None
    }

    /// A pixel-mutating command on the active layer pushed one record:
    /// the undo stack grew by a record that, performed on the layer's
    /// new buffer, restores the old one; the redo stack was cleared.
    pub open spec fn history_extended(pre: State, post: State) -> bool {
        &&& post.undo_seq().len() == pre.undo_seq().len() + 1
        &&& forall|i: int| 0 <= i < pre.undo_seq().len() ==> post.undo_seq()[i] == pre.undo_seq()[i]
        &&& {
            let r = post.undo_seq().last();
            &&& r.valid(post.layers_seq().len() as int, post.wd(), post.ht())
            &&& r.layer_spec() == pre.active_spec()
            &&& r.apply_pix(post.layer_pix(pre.active_spec()), pre.wd()) == pre.layer_pix(
                pre.active_spec(),
            )
        }
        &&& post.redo_seq().len() == 0
    }

    /// Everything except what the clauses name is unchanged: layer
    /// structure, selection machine, tool, color, palette, pending line
    /// point and history.
    pub open spec fn unchanged_but_layers(pre: State, post: State) -> bool {
        &&& post.same_meta(pre)
        &&& post.undo_seq() == pre.undo_seq()
        &&& post.redo_seq() == pre.redo_seq()
    }

    /// The contract of one step of command execution: how `post` and
    /// the returned effect relate to `pre` for each event.
    pub open spec fn execute_post(pre: State, post: State, event: Event, fx: CanvasEffect) -> bool {
        match event {
            Event::Draw(x, y) => State::draw_post(pre, post, x as int, y as int, fx),
            Event::SetTool(t) => {
                &&& post.tool_spec() == t
                &&& post.line_start_spec() is None
                &&& post.layers_seq() == pre.layers_seq()
                &&& post.active_spec() == pre.active_spec()
                &&& post.sel_spec() == pre.sel_spec()
                &&& post.free_spec() == pre.free_spec()
                &&& post.color_spec() == pre.color_spec()
                &&& post.palette_seq() == pre.palette_seq()
                &&& post.undo_seq() == pre.undo_seq()
                &&& post.redo_seq() == pre.redo_seq()
                &&& fx == CanvasEffect::Unchanged
            },
            Event::SetMainColor(c) => {
                &&& post.color_spec() == c
                &&& post.palette_seq() == State::palette_after(pre.palette_seq(), c)
                &&& post.layers_seq() == pre.layers_seq()
                &&& post.active_spec() == pre.active_spec()
                &&& post.sel_spec() == pre.sel_spec()
                &&& post.free_spec() == pre.free_spec()
                &&& post.tool_spec() == pre.tool_spec()
                &&& post.line_start_spec() == pre.line_start_spec()
                &&& post.undo_seq() == pre.undo_seq()
                &&& post.redo_seq() == pre.redo_seq()
                &&& fx == CanvasEffect::Unchanged
            },
            Event::ResizeCanvas(w, h) => {
                if w == 0 || h == 0 {
                    State::same_state(post, pre) && fx == CanvasEffect::Unchanged
                } else {
                    &&& post.wd() == w
                    &&& post.ht() == h
                    &&& post.layers_seq().len() == pre.layers_seq().len()
                    &&& post.active_spec() == pre.active_spec()
                    &&& forall|i: int|
                        0 <= i < pre.layers_seq().len() ==> {
                            &&& (#[trigger] post.layers_seq()[i]).is_visible()
                                == pre.layers_seq()[i].is_visible()
                            &&& post.layers_seq()[i].op() == pre.layers_seq()[i].op()
                        }
                    &&& forall|i: int, x: int, y: int|
                        0 <= i < pre.layers_seq().len() && post.in_bounds(x, y)
                            ==> #[trigger] post.layer_at(i, x, y) == (if pre.in_bounds(x, y) {
                            pre.merged_at(i, x, y)
                        } else {
                            Color::transparent_spec()
                        })
                    &&& post.sel_spec() is None
                    &&& post.free_spec() is None
                    &&& post.tool_spec() == pre.tool_spec()
                    &&& post.color_spec() == pre.color_spec()
                    &&& post.palette_seq() == pre.palette_seq()
                    &&& post.line_start_spec() is None
                    &&& post.undo_seq().len() == 0
                    &&& post.redo_seq().len() == 0
                    &&& fx == CanvasEffect::New
                }
            },
            Event::ClearCanvas => {
                &&& post.same_layers_except(pre, pre.active_spec())
                &&& post.wd() == pre.wd() && post.ht() == pre.ht()
                &&& forall|x: int, y: int|
                    post.in_bounds(x, y) ==> post.at(x, y) == Color::transparent_spec()
                &&& post.same_meta(pre)
                &&& State::history_extended(pre, post)
                &&& fx == CanvasEffect::Update
            },
            Event::NewCanvas(w, h) => {
                if w == 0 || h == 0 {
                    State::same_state(post, pre) && fx == CanvasEffect::Unchanged
                } else {
                    post.is_fresh(w as int, h as int) && post.color_spec() == pre.color_spec()
                        && fx == CanvasEffect::New
                }
            },
            Event::StartSelection(rect) => {
                let clipped = State::clip_rect(rect, pre.wd(), pre.ht());
                &&& (pre.free_spec() is Some ==> {
                    &&& post.same_layers_except(pre, pre.active_spec())
                    &&& post.wd() == pre.wd() && post.ht() == pre.ht()
                    &&& forall|x: int, y: int|
                        post.in_bounds(x, y) ==> post.at(x, y) == pre.merged_at(
                            pre.active_spec(),
                            x,
                            y,
                        )
                    &&& fx == CanvasEffect::Update
                })
                &&& (pre.free_spec() is None ==> post.layers_seq() == pre.layers_seq() && fx
                    == CanvasEffect::Unchanged)
                &&& post.sel_spec() == (if clipped.w >= 1 && clipped.h >= 1 {
                    Some(Selection::Canvas(clipped))
                } else {
                    None::<Selection>
                })
                &&& post.free_spec() is None
                &&& post.active_spec() == pre.active_spec()
                &&& post.tool_spec() == pre.tool_spec()
                &&& post.color_spec() == pre.color_spec()
                &&& post.palette_seq() == pre.palette_seq()
                &&& post.line_start_spec() == pre.line_start_spec()
                &&& post.undo_seq() == pre.undo_seq()
                &&& post.redo_seq() == pre.redo_seq()
            },
            Event::ClearSelection => {
                if pre.free_spec() is Some {
                    &&& post.same_layers_except(pre, pre.active_spec())
                    &&& post.wd() == pre.wd() && post.ht() == pre.ht()
                    &&& forall|x: int, y: int|
                        post.in_bounds(x, y) ==> post.at(x, y) == pre.merged_at(
                            pre.active_spec(),
                            x,
                            y,
                        )
                    &&& post.sel_spec() is None
                    &&& post.free_spec() is None
                    &&& post.active_spec() == pre.active_spec()
                    &&& post.tool_spec() == pre.tool_spec()
                    &&& post.color_spec() == pre.color_spec()
                    &&& post.palette_seq() == pre.palette_seq()
                    &&& post.line_start_spec() == pre.line_start_spec()
                    &&& post.undo_seq() == pre.undo_seq()
                    &&& post.redo_seq() == pre.redo_seq()
                    &&& fx == CanvasEffect::Update
                } else {
                    &&& post.sel_spec() is None
                    &&& post.layers_seq() == pre.layers_seq()
                    &&& post.active_spec() == pre.active_spec()
                    &&& post.free_spec() == pre.free_spec()
                    &&& post.tool_spec() == pre.tool_spec()
                    &&& post.color_spec() == pre.color_spec()
                    &&& post.palette_seq() == pre.palette_seq()
                    &&& post.line_start_spec() == pre.line_start_spec()
                    &&& post.undo_seq() == pre.undo_seq()
                    &&& post.redo_seq() == pre.redo_seq()
                    &&& fx == CanvasEffect::Unchanged
                }
            },
            Event::Cut => {
                match pre.sel_spec() {
                    Some(Selection::Canvas(rect)) => {
                        &&& post.same_layers_except(pre, pre.active_spec())
                        &&& post.wd() == pre.wd() && post.ht() == pre.ht()
                        &&& forall|x: int, y: int|
                            post.in_bounds(x, y) ==> post.at(x, y) == (if rect.contains_spec(
                                x,
                                y,
                            ) {
                                Color::transparent_spec()
                            } else {
                                pre.at(x, y)
                            })
                        &&& State::free_holds_region(post.free_spec(), pre, rect)
                        &&& post.sel_spec() == Some(Selection::FreeImage)
                        &&& post.active_spec() == pre.active_spec()
                        &&& post.tool_spec() == pre.tool_spec()
                        &&& post.color_spec() == pre.color_spec()
                        &&& post.palette_seq() == pre.palette_seq()
                        &&& post.line_start_spec() == pre.line_start_spec()
                        &&& post.undo_seq() == pre.undo_seq()
                        &&& post.redo_seq() == pre.redo_seq()
                        &&& fx == CanvasEffect::Update
                    },
                    _ => State::same_state(post, pre) && fx == CanvasEffect::Unchanged,
                }
            },
            Event::Copy => {
                match pre.sel_spec() {
                    Some(Selection::Canvas(rect)) => {
                        &&& post.layers_seq() == pre.layers_seq()
                        &&& State::free_holds_region(post.free_spec(), pre, rect)
                        &&& post.sel_spec() == Some(Selection::FreeImage)
                        &&& post.active_spec() == pre.active_spec()
                        &&& post.tool_spec() == pre.tool_spec()
                        &&& post.color_spec() == pre.color_spec()
                        &&& post.palette_seq() == pre.palette_seq()
                        &&& post.line_start_spec() == pre.line_start_spec()
                        &&& post.undo_seq() == pre.undo_seq()
                        &&& post.redo_seq() == pre.redo_seq()
                        &&& fx == CanvasEffect::Unchanged
                    },
                    _ => State::same_state(post, pre) && fx == CanvasEffect::Unchanged,
                }
            },
            Event::Paste(x, y) => {
                match pre.free_spec() {
                    Some(img) => {
                        &&& post.free_spec() is Some
                        &&& post.free_spec()->0.bm() == img.bm()
                        &&& post.free_spec()->0.px() == x as int
                        &&& post.free_spec()->0.py() == y as int
                        &&& post.layers_seq() == pre.layers_seq()
                        &&& post.active_spec() == pre.active_spec()
                        &&& post.sel_spec() == pre.sel_spec()
                        &&& post.tool_spec() == pre.tool_spec()
                        &&& post.color_spec() == pre.color_spec()
                        &&& post.palette_seq() == pre.palette_seq()
                        &&& post.line_start_spec() == pre.line_start_spec()
                        &&& post.undo_seq() == pre.undo_seq()
                        &&& post.redo_seq() == pre.redo_seq()
                        &&& fx == CanvasEffect::Unchanged
                    },
                    _ => State::same_state(post, pre) && fx == CanvasEffect::Unchanged,
                }
            },
            Event::MoveSelection(dx, dy) => {
                match pre.free_spec() {
                    Some(img) => {
                        &&& post.free_spec() is Some
                        &&& post.free_spec()->0.bm() == img.bm()
                        &&& post.free_spec()->0.px() == crate::free_image::sat_add_spec(
                            img.px(),
                            dx as int,
                        )
                        &&& post.free_spec()->0.py() == crate::free_image::sat_add_spec(
                            img.py(),
                            dy as int,
                        )
                        &&& post.layers_seq() == pre.layers_seq()
                        &&& post.active_spec() == pre.active_spec()
                        &&& post.sel_spec() == pre.sel_spec()
                        &&& post.tool_spec() == pre.tool_spec()
                        &&& post.color_spec() == pre.color_spec()
                        &&& post.palette_seq() == pre.palette_seq()
                        &&& post.line_start_spec() == pre.line_start_spec()
                        &&& post.undo_seq() == pre.undo_seq()
                        &&& post.redo_seq() == pre.redo_seq()
                        &&& fx == CanvasEffect::Unchanged
                    },
                    _ => State::same_state(post, pre) && fx == CanvasEffect::Unchanged,
                }
            },
            Event::AddLayer => {
                &&& post.layers_seq().len() == pre.layers_seq().len() + 1
                &&& forall|i: int|
                    0 <= i < pre.layers_seq().len() ==> post.layers_seq()[i] == pre.layers_seq()[i]
                &&& {
                    let l = post.layers_seq().last();
                    &&& l.is_visible()
                    &&& l.op() == 255
                    &&& l.cv().bm().wd() == pre.wd()
                    &&& l.cv().bm().ht() == pre.ht()
                    &&& forall|x: int, y: int|
                        l.cv().bm().in_bounds(x, y) ==> l.cv().bm().at(x, y)
                            == Color::transparent_spec()
                }
                &&& post.same_meta(pre)
                &&& post.undo_seq() == pre.undo_seq()
                &&& post.redo_seq() == pre.redo_seq()
                &&& fx == CanvasEffect::Layer
            },
            Event::RemoveLayer(i) => {
                if pre.layers_seq().len() > 1 && (i as int) < pre.layers_seq().len() {
                    &&& post.layers_seq() == pre.layers_seq().remove(i as int)
                    &&& post.active_spec() == (if pre.active_spec() == i as int {
                        0
                    } else if pre.active_spec() > i as int {
                        pre.active_spec() - 1
                    } else {
                        pre.active_spec()
                    })
                    &&& post.sel_spec() == pre.sel_spec()
                    &&& post.free_spec() == pre.free_spec()
                    &&& post.tool_spec() == pre.tool_spec()
                    &&& post.color_spec() == pre.color_spec()
                    &&& post.palette_seq() == pre.palette_seq()
                    &&& post.line_start_spec() == pre.line_start_spec()
                    &&& post.undo_seq().len() == 0
                    &&& post.redo_seq().len() == 0
                    &&& fx == CanvasEffect::Layer
                } else {
                    State::same_state(post, pre) && fx == CanvasEffect::Unchanged
                }
            },
            Event::SetActiveLayer(i) => {
                if (i as int) < pre.layers_seq().len() {
                    &&& post.active_spec() == i as int
                    &&& post.layers_seq() == pre.layers_seq()
                    &&& post.sel_spec() == pre.sel_spec()
                    &&& post.free_spec() == pre.free_spec()
                    &&& post.tool_spec() == pre.tool_spec()
                    &&& post.color_spec() == pre.color_spec()
                    &&& post.palette_seq() == pre.palette_seq()
                    &&& post.line_start_spec() == pre.line_start_spec()
                    &&& post.undo_seq() == pre.undo_seq()
                    &&& post.redo_seq() == pre.redo_seq()
                    &&& fx == CanvasEffect::Unchanged
                } else {
                    State::same_state(post, pre) && fx == CanvasEffect::Unchanged
                }
            },
            Event::SetLayerVisibility(i, v) => {
                if (i as int) < pre.layers_seq().len() {
                    &&& post.layers_seq() == pre.layers_seq().update(
                        i as int,
                        post.layers_seq()[i as int],
                    )
                    &&& post.layers_seq()[i as int].cv() == pre.layers_seq()[i as int].cv()
                    &&& post.layers_seq()[i as int].is_visible() == v
                    &&& post.layers_seq()[i as int].op() == pre.layers_seq()[i as int].op()
                    &&& post.same_meta(pre)
                    &&& post.undo_seq() == pre.undo_seq()
                    &&& post.redo_seq() == pre.redo_seq()
                    &&& fx == CanvasEffect::Unchanged
                } else {
                    State::same_state(post, pre) && fx == CanvasEffect::Unchanged
                }
            },
            Event::SetLayerOpacity(i, o) => {
                if (i as int) < pre.layers_seq().len() {
                    &&& post.layers_seq() == pre.layers_seq().update(
                        i as int,
                        post.layers_seq()[i as int],
                    )
                    &&& post.layers_seq()[i as int].cv() == pre.layers_seq()[i as int].cv()
                    &&& post.layers_seq()[i as int].is_visible() == pre.layers_seq()[i as int].is_visible()
                    &&& post.layers_seq()[i as int].op() == o
                    &&& post.same_meta(pre)
                    &&& post.undo_seq() == pre.undo_seq()
                    &&& post.redo_seq() == pre.redo_seq()
                    &&& fx == CanvasEffect::Unchanged
                } else {
                    State::same_state(post, pre) && fx == CanvasEffect::Unchanged
                }
            },
            Event::MoveLayer(from, to) => {
                if (from as int) < pre.layers_seq().len() && (to as int) < pre.layers_seq().len()
                    && from != to {
                    &&& post.layers_seq() == pre.layers_seq().remove(from as int).insert(
                        to as int,
                        pre.layers_seq()[from as int],
                    )
                    &&& post.active_spec() == State::moved_index(
                        pre.active_spec(),
                        from as int,
                        to as int,
                    )
                    &&& post.sel_spec() == pre.sel_spec()
                    &&& post.free_spec() == pre.free_spec()
                    &&& post.tool_spec() == pre.tool_spec()
                    &&& post.color_spec() == pre.color_spec()
                    &&& post.palette_seq() == pre.palette_seq()
                    &&& post.line_start_spec() == pre.line_start_spec()
                    &&& post.undo_seq().len() == 0
                    &&& post.redo_seq().len() == 0
                    &&& fx == CanvasEffect::Layer
                } else {
                    State::same_state(post, pre) && fx == CanvasEffect::Unchanged
                }
            },
            Event::MergeLayerDown(i) => {
                if 1 <= i as int && (i as int) < pre.layers_seq().len() {
                    &&& post.layers_seq().len() == pre.layers_seq().len() - 1
                    &&& forall|j: int|
                        0 <= j < i as int - 1 ==> post.layers_seq()[j] == pre.layers_seq()[j]
                    &&& forall|j: int|
                        i as int <= j < post.layers_seq().len() ==> post.layers_seq()[j]
                            == pre.layers_seq()[j + 1]
                    &&& post.layers_seq()[i as int - 1].is_visible() == pre.layers_seq()[i as int
                        - 1].is_visible()
                    &&& post.layers_seq()[i as int - 1].op() == pre.layers_seq()[i as int - 1].op()
                    &&& post.layers_seq()[i as int - 1].cv().bm().wd() == pre.wd()
                    &&& post.layers_seq()[i as int - 1].cv().bm().ht() == pre.ht()
                    &&& forall|x: int, y: int|
                        pre.in_bounds(x, y) ==> #[trigger] post.layer_at(i as int - 1, x, y)
                            == pre.layer_at(i as int, x, y).over_spec(
                            pre.layer_at(i as int - 1, x, y),
                        )
                    &&& post.active_spec() == (if pre.active_spec() == i as int {
                        i as int - 1
                    } else if pre.active_spec() > i as int {
                        pre.active_spec() - 1
                    } else {
                        pre.active_spec()
                    })
                    &&& post.sel_spec() == pre.sel_spec()
                    &&& post.free_spec() == pre.free_spec()
                    &&& post.tool_spec() == pre.tool_spec()
                    &&& post.color_spec() == pre.color_spec()
                    &&& post.palette_seq() == pre.palette_seq()
                    &&& post.line_start_spec() == pre.line_start_spec()
                    &&& post.undo_seq().len() == 0
                    &&& post.redo_seq().len() == 0
                    &&& fx == CanvasEffect::Layer
                } else {
                    State::same_state(post, pre) && fx == CanvasEffect::Unchanged
                }
            },
            Event::SetSpritesheet(gx, gy) => {
                if gx >= 1 && gy >= 1 {
                    &&& post.layers_seq().len() == pre.layers_seq().len()
                    &&& forall|i: int|
                        0 <= i < pre.layers_seq().len() ==> {
                            &&& (#[trigger] post.layers_seq()[i]).cv().bm()
                                == pre.layers_seq()[i].cv().bm()
                            &&& post.layers_seq()[i].cv().gx() == gx as int
                            &&& post.layers_seq()[i].cv().gy() == gy as int
                            &&& post.layers_seq()[i].is_visible()
                                == pre.layers_seq()[i].is_visible()
                            &&& post.layers_seq()[i].op() == pre.layers_seq()[i].op()
                        }
                    &&& post.same_meta(pre)
                    &&& post.undo_seq() == pre.undo_seq()
                    &&& post.redo_seq() == pre.redo_seq()
                    &&& fx == CanvasEffect::Unchanged
                } else {
                    State::same_state(post, pre) && fx == CanvasEffect::Unchanged
                }
            },
            Event::Undo => {
                if pre.undo_seq().len() == 0 {
                    State::same_state(post, pre) && fx == CanvasEffect::Unchanged
                } else {
                    let r = pre.undo_seq().last();
                    &&& post.same_layers_except(pre, r.layer_spec())
                    &&& post.wd() == pre.wd() && post.ht() == pre.ht()
                    &&& post.layer_pix(r.layer_spec()) == r.apply_pix(
                        pre.layer_pix(r.layer_spec()),
                        pre.wd(),
                    )
                    &&& post.undo_seq() == pre.undo_seq().drop_last()
                    &&& post.redo_seq().len() == pre.redo_seq().len() + 1
                    &&& forall|i: int|
                        0 <= i < pre.redo_seq().len() ==> post.redo_seq()[i] == pre.redo_seq()[i]
                    &&& {
                        let r2 = post.redo_seq().last();
                        &&& r2.valid(post.layers_seq().len() as int, post.wd(), post.ht())
                        &&& r2.layer_spec() == r.layer_spec()
                        &&& r2.apply_pix(post.layer_pix(r.layer_spec()), pre.wd())
                            == pre.layer_pix(r.layer_spec())
                    }
                    &&& post.same_meta(pre)
                    &&& fx == CanvasEffect::Update
                }
            },
            Event::Redo => {
                if pre.redo_seq().len() == 0 {
                    State::same_state(post, pre) && fx == CanvasEffect::Unchanged
                } else {
                    let r = pre.redo_seq().last();
                    &&& post.same_layers_except(pre, r.layer_spec())
                    &&& post.wd() == pre.wd() && post.ht() == pre.ht()
                    &&& post.layer_pix(r.layer_spec()) == r.apply_pix(
                        pre.layer_pix(r.layer_spec()),
                        pre.wd(),
                    )
                    &&& post.redo_seq() == pre.redo_seq().drop_last()
                    &&& post.undo_seq().len() == pre.undo_seq().len() + 1
                    &&& forall|i: int|
                        0 <= i < pre.undo_seq().len() ==> post.undo_seq()[i] == pre.undo_seq()[i]
                    &&& {
                        let r2 = post.undo_seq().last();
                        &&& r2.valid(post.layers_seq().len() as int, post.wd(), post.ht())
                        &&& r2.layer_spec() == r.layer_spec()
                        &&& r2.apply_pix(post.layer_pix(r.layer_spec()), pre.wd())
                            == pre.layer_pix(r.layer_spec())
                    }
                    &&& post.same_meta(pre)
                    &&& fx == CanvasEffect::Update
                }
            },
        }
    }

    /// A layer index after the layer at `from` moved to `to`.
    pub open spec fn moved_index(active: int, from: int, to: int) -> int {
        if active == from {
            to
        } else if from < active && to >= active {
            active - 1
        } else if from > active && to <= active {
            active + 1
        } else {
            active
        }
    }

    /// `img` holds exactly the pixels of `pre`'s active layer inside
    /// `rect`, placed at the rectangle's position.
    pub open spec fn free_holds_region(img: Option<FreeImage>, pre: State, rect: Rect) -> bool {
        &&& img is Some
        &&& {
            let f = img->0;
            &&& f.wf()
            &&& f.bm().wd() == rect.w
            &&& f.bm().ht() == rect.h
            &&& f.px() == rect.x as int
            &&& f.py() == rect.y as int
            &&& forall|i: int, j: int|
                f.bm().in_bounds(i, j) ==> f.bm().at(i, j) == pre.at(rect.x + i, rect.y + j)
        }
    }

    /// What `Draw(x, y)` does, by the selected tool.
    pub open spec fn draw_post(pre: State, post: State, x: int, y: int, fx: CanvasEffect) -> bool {
        if !pre.in_bounds(x, y) {
            State::same_state(post, pre) && fx == CanvasEffect::Unchanged
        } else {
            match pre.tool_spec() {
                Tool::Brush => State::painted_one(pre, post, x, y, pre.color_spec(), true) && fx
                    == CanvasEffect::Update,
                Tool::Eraser => State::painted_one(
                    pre,
                    post,
                    x,
                    y,
                    Color::transparent_spec(),
                    false,
                ) && fx == CanvasEffect::Update,
                Tool::Eyedropper => {
                    let seen = pre.composite_upto(pre.layers_seq().len() as int, x, y);
                    &&& post.color_spec() == seen
                    &&& post.palette_seq() == State::palette_after(pre.palette_seq(), seen)
                    &&& post.layers_seq() == pre.layers_seq()
                    &&& post.active_spec() == pre.active_spec()
                    &&& post.sel_spec() == pre.sel_spec()
                    &&& post.free_spec() == pre.free_spec()
                    &&& post.tool_spec() == pre.tool_spec()
                    &&& post.line_start_spec() == pre.line_start_spec()
                    &&& post.undo_seq() == pre.undo_seq()
                    &&& post.redo_seq() == pre.redo_seq()
                    &&& fx == CanvasEffect::Unchanged
                },
                Tool::Bucket => {
                    if pre.at(x, y) == pre.color_spec() {
                        State::same_state(post, pre) && fx == CanvasEffect::Unchanged
                    } else {
                        let ob = pre.layers_seq()[pre.active_spec()].cv().bm();
                        let nb = post.layers_seq()[pre.active_spec()].cv().bm();
                        let c0 = pre.at(x, y);
                        &&& post.same_layers_except(pre, pre.active_spec())
                        &&& post.wd() == pre.wd() && post.ht() == pre.ht()
                        &&& crate::bucket::filled(ob, nb, c0, pre.color_spec(), x, y)
                        &&& forall|u: int, v: int|
                            ob.in_bounds(u, v) ==> crate::bucket::filled(
                                ob,
                                nb,
                                c0,
                                pre.color_spec(),
                                u,
                                v,
                            ) || nb.at(u, v) == ob.at(u, v)
                        &&& forall|u: int, v: int, nu: int, nv: int|
                            ob.in_bounds(u, v) && crate::bucket::filled(
                                ob,
                                nb,
                                c0,
                                pre.color_spec(),
                                u,
                                v,
                            ) && ob.in_bounds(nu, nv) && #[trigger] crate::bucket::adjacent4(
                                u,
                                v,
                                nu,
                                nv,
                            ) && ob.at(nu, nv) == c0 ==> crate::bucket::filled(
                                ob,
                                nb,
                                c0,
                                pre.color_spec(),
                                nu,
                                nv,
                            )
                        &&& forall|u: int, v: int|
                            ob.in_bounds(u, v) ==> (crate::bucket::filled(
                                ob,
                                nb,
                                c0,
                                pre.color_spec(),
                                u,
                                v,
                            ) <==> crate::bucket::reachable(ob, c0, x, y, u, v))
                        &&& post.active_spec() == pre.active_spec()
                        &&& post.sel_spec() == pre.sel_spec()
                        &&& post.free_spec() == pre.free_spec()
                        &&& post.tool_spec() == pre.tool_spec()
                        &&& post.color_spec() == pre.color_spec()
                        &&& post.palette_seq() == State::palette_after(
                            pre.palette_seq(),
                            pre.color_spec(),
                        )
                        &&& post.line_start_spec() == pre.line_start_spec()
                        &&& State::history_extended(pre, post)
                        &&& fx == CanvasEffect::Update
                    }
                },
                Tool::Line => {
                    match pre.line_start_spec() {
                        Some(p) => {
                            let sx = p.0 as int;
                            let sy = p.1 as int;
                            &&& post.same_layers_except(pre, pre.active_spec())
                            &&& post.wd() == pre.wd() && post.ht() == pre.ht()
                            &&& forall|i: int|
                                0 <= i <= crate::line::line_steps(sx, sy, x, y) ==> post.at(
                                    #[trigger] crate::line::line_x(sx, sy, x, y, i),
                                    crate::line::line_y(sx, sy, x, y, i),
                                ) == pre.color_spec()
                            &&& forall|u: int, v: int|
                                post.in_bounds(u, v) && !crate::line::on_line(sx, sy, x, y, u, v)
                                    ==> post.at(u, v) == pre.at(u, v)
                            &&& post.line_start_spec() is None
                            &&& post.active_spec() == pre.active_spec()
                            &&& post.sel_spec() == pre.sel_spec()
                            &&& post.free_spec() == pre.free_spec()
                            &&& post.tool_spec() == pre.tool_spec()
                            &&& post.color_spec() == pre.color_spec()
                            &&& post.palette_seq() == State::palette_after(
                                pre.palette_seq(),
                                pre.color_spec(),
                            )
                            &&& State::history_extended(pre, post)
                            &&& fx == CanvasEffect::Update
                        },
                        _ => {
                            &&& post.line_start_spec() == Some((x as u16, y as u16))
                            &&& post.layers_seq() == pre.layers_seq()
                            &&& post.active_spec() == pre.active_spec()
                            &&& post.sel_spec() == pre.sel_spec()
                            &&& post.free_spec() == pre.free_spec()
                            &&& post.tool_spec() == pre.tool_spec()
                            &&& post.color_spec() == pre.color_spec()
                            &&& post.palette_seq() == pre.palette_seq()
                            &&& post.undo_seq() == pre.undo_seq()
                            &&& post.redo_seq() == pre.redo_seq()
                            &&& fx == CanvasEffect::Unchanged
                        },
                    }
                },
            }
        }
    }

    /// One pixel of the active layer was painted with `c`; if
    /// `to_palette`, the color was recorded.
    pub open spec fn painted_one(
        pre: State,
        post: State,
        x: int,
        y: int,
        c: Color,
        to_palette: bool,
    ) -> bool {
        &&& post.same_layers_except(pre, pre.active_spec())
        &&& post.wd() == pre.wd() && post.ht() == pre.ht()
        &&& post.at(x, y) == c
        &&& forall|u: int, v: int|
            post.in_bounds(u, v) && !(u == x && v == y) ==> post.at(u, v) == pre.at(u, v)
        &&& post.active_spec() == pre.active_spec()
        &&& post.sel_spec() == pre.sel_spec()
        &&& post.free_spec() == pre.free_spec()
        &&& post.tool_spec() == pre.tool_spec()
        &&& post.color_spec() == pre.color_spec()
        &&& post.palette_seq() == (if to_palette {
            State::palette_after(pre.palette_seq(), c)
        } else {
            pre.palette_seq()
        })
        &&& post.line_start_spec() == pre.line_start_spec()
        &&& State::history_extended(pre, post)
    }


    /// Frame helper: with the same stacks, palette and dimensions, the
    /// history-validity and palette-uniqueness clauses carry over.
    proof fn lemma_meta_frame(pre: State, post: State)
        requires
            pre.wf(),
            post.undo_seq() == pre.undo_seq(),
            post.redo_seq() == pre.redo_seq(),
            post.palette_seq() == pre.palette_seq(),
            post.layers_seq().len() >= pre.layers_seq().len(),
            post.wd() == pre.wd(),
            post.ht() == pre.ht(),
        ensures
            forall|i: int|
                0 <= i < post.undo_seq().len() ==> (#[trigger] post.undo_seq()[i]).valid(
                    post.layers_seq().len() as int,
                    post.wd(),
                    post.ht(),
                ),
            forall|i: int|
                0 <= i < post.redo_seq().len() ==> (#[trigger] post.redo_seq()[i]).valid(
                    post.layers_seq().len() as int,
                    post.wd(),
                    post.ht(),
                ),
            forall|k: int, l: int|
                0 <= k < l < post.palette_seq().len() ==> post.palette_seq()[k]
                    != post.palette_seq()[l],
    {
        assert forall|i: int|
            0 <= i < post.undo_seq().len() implies (#[trigger] post.undo_seq()[i]).valid(
            post.layers_seq().len() as int,
            post.wd(),
            post.ht(),
        ) by {
            assert(pre.undo_seq()[i].valid(pre.layers_seq().len() as int, pre.wd(), pre.ht()));
        }
        assert forall|i: int|
            0 <= i < post.redo_seq().len() implies (#[trigger] post.redo_seq()[i]).valid(
            post.layers_seq().len() as int,
            post.wd(),
            post.ht(),
        ) by {
            assert(pre.redo_seq()[i].valid(pre.layers_seq().len() as int, pre.wd(), pre.ht()));
        }
    }

    /// Adds `c` to the palette unless it is already there.
    fn record_palette(&mut self, c: Color)
        requires
            forall|k: int, l: int|
                0 <= k < l < old(self).palette_seq().len() ==> old(self).palette_seq()[k] != old(
                    self,
                ).palette_seq()[l],
        ensures
            final(self).palette_seq() == State::palette_after(old(self).palette_seq(), c),
            final(self).layers_seq() == old(self).layers_seq(),
            final(self).active_spec() == old(self).active_spec(),
            final(self).sel_spec() == old(self).sel_spec(),
            final(self).free_spec() == old(self).free_spec(),
            final(self).tool_spec() == old(self).tool_spec(),
            final(self).color_spec() == old(self).color_spec(),
            final(self).line_start_spec() == old(self).line_start_spec(),
            final(self).undo_seq() == old(self).undo_seq(),
            final(self).redo_seq() == old(self).redo_seq(),
            forall|k: int, l: int|
                0 <= k < l < final(self).palette_seq().len() ==> final(self).palette_seq()[k]
                    != final(self).palette_seq()[l],
    {
        let mut found: bool = false;
        let mut i: usize = 0;
        while i < self.palette.len()
            invariant
                i <= self.palette@.len(),
                found ==> palette_has(self.palette@, c),
                !found ==> forall|j: int| 0 <= j < i as int ==> self.palette@[j] != c,
                *self == *old(self),
            decreases self.palette@.len() - i as int,
        {
            if self.palette[i] == c {
                found = true;
                proof {
                    assert(palette_has(self.palette@, c));
                }
            }
            i = i + 1;
        }
        if !found {
            proof {
                assert(!palette_has(self.palette@, c)) by {
                    if palette_has(self.palette@, c) {
                        let j = choose|j: int|
                            0 <= j < self.palette@.len() && self.palette@[j] == c;
                        assert(self.palette@[j] != c);
                    }
                }
            }
            self.palette.push(c);
            proof {
                assert forall|k: int, l: int|
                    0 <= k < l < self.palette@.len() implies self.palette@[k]
                    != self.palette@[l] by {
                    if l == self.palette@.len() - 1 {
                        assert(self.palette@[l] == c);
                        assert(self.palette@[k] == old(self).palette_seq()[k]);
                        if self.palette@[k] == c {
                            assert(palette_has(old(self).palette_seq(), c));
                        }
                    } else {
                        assert(self.palette@[k] == old(self).palette_seq()[k]);
                        assert(self.palette@[l] == old(self).palette_seq()[l]);
                        assert(old(self).palette_seq()[k] != old(self).palette_seq()[l]);
                    }
                }
            }
        } else {
            proof {
                assert(self.palette@ == old(self).palette_seq());
                assert forall|k: int, l: int|
                    0 <= k < l < self.palette@.len() implies self.palette@[k]
                    != self.palette@[l] by {
                    assert(old(self).palette_seq()[k] != old(self).palette_seq()[l]);
                }
            }
        }
    }

    /// Commits the free image onto the active layer at its placement
    /// rectangle (pixels outside the canvas are dropped) and leaves the
    /// selection machine idle.
    fn merge_free_image(&mut self)
        requires
            old(self).wf(),
            old(self).free_spec() is Some,
        ensures
            final(self).wf(),
            final(self).same_layers_except(*old(self), old(self).active_spec()),
            final(self).wd() == old(self).wd() && final(self).ht() == old(self).ht(),
            forall|x: int, y: int|
                final(self).in_bounds(x, y) ==> final(self).at(x, y) == old(self).merged_at(
                    old(self).active_spec(),
                    x,
                    y,
                ),
            final(self).sel_spec() is None,
            final(self).free_spec() is None,
            final(self).active_spec() == old(self).active_spec(),
            final(self).tool_spec() == old(self).tool_spec(),
            final(self).color_spec() == old(self).color_spec(),
            final(self).palette_seq() == old(self).palette_seq(),
            final(self).line_start_spec() == old(self).line_start_spec(),
            final(self).undo_seq() == old(self).undo_seq(),
            final(self).redo_seq() == old(self).redo_seq(),
    {
        let mut img_opt: Option<FreeImage> = None;
        core::mem::swap(&mut img_opt, &mut self.free_image);
        let img = img_opt.unwrap();
        let idx: usize = self.active;
        let mut layer = self.layers.remove(idx);
        layer.canvas_mut().bitmap_mut().merge_blend(img.bitmap(), img.x(), img.y());
        self.layers.insert(idx, layer);
        self.selection = None;
        proof {
            assert(self.layers@ =~= old(self).layers@.update(idx as int, self.layers@[idx as int]));
            assert forall|i: int|
                0 <= i < self.layers@.len() implies (#[trigger] self.layers@[i]).wf()
                && self.layers@[i].cv().bm().wd() == old(self).wd() && self.layers@[i].cv().bm().ht()
                == old(self).ht() by {
                if i != idx as int {
                    assert(self.layers@[i] == old(self).layers@[i]);
                }
            }
            State::lemma_meta_frame(*old(self), *self);
        }
    }

    /// Writes one pixel of the active layer and records the reversal.
    fn paint_pixel(&mut self, x: u16, y: u16, c: Color, to_palette: bool) -> (fx: CanvasEffect)
        requires
            old(self).wf(),
            old(self).in_bounds(x as int, y as int),
        ensures
            final(self).wf(),
            State::painted_one(*old(self), *final(self), x as int, y as int, c, to_palette),
            fx == CanvasEffect::Update,
    {
        let ghost w = old(self).wd();
        let ghost h = old(self).ht();
        let idx: usize = self.active;
        let mut layer = self.layers.remove(idx);
        let prior: Color = layer.canvas().inner().pixel(x, y);
        layer.canvas_mut().bitmap_mut().set_pixel(x, y, c);
        self.layers.insert(idx, layer);
        let mut writes: Vec<PixelWrite> = Vec::new();
        writes.push(PixelWrite { x, y, color: prior });
        let ghost ws = writes@;
        self.undo_stack.push(Reversible::Pixels { layer: idx, writes });
        self.redo_stack = Vec::new();
        if to_palette {
            proof {
                assert forall|k: int, l: int|
                    0 <= k < l < self.palette@.len() implies self.palette@[k]
                    != self.palette@[l] by {
                    assert(self.palette@ == old(self).palette_seq());
                    assert(old(self).palette_seq()[k] != old(self).palette_seq()[l]);
                }
            }
            self.record_palette(c);
        }
        proof {
            assert forall|k: int, l: int|
                0 <= k < l < self.palette_seq().len() implies self.palette_seq()[k]
                != self.palette_seq()[l] by {
                if self.palette_seq() == old(self).palette_seq() {
                    assert(old(self).palette_seq()[k] != old(self).palette_seq()[l]);
                }
            }
            assert(self.layers@ =~= old(self).layers@.update(idx as int, self.layers@[idx as int]));
            assert forall|i: int|
                0 <= i < self.layers@.len() implies (#[trigger] self.layers@[i]).wf()
                && self.layers@[i].cv().bm().wd() == old(self).wd() && self.layers@[i].cv().bm().ht()
                == old(self).ht() by {
                if i != idx as int {
                    assert(self.layers@[i] == old(self).layers@[i]);
                }
            }
            assert(old(self).layers_seq()[idx as int].wf());
            assert forall|i: int|
                0 <= i < self.undo_stack@.len() - 1 implies (#[trigger] self.undo_stack@[i]).valid(
                self.layers@.len() as int,
                self.wd(),
                self.ht(),
            ) by {
                assert(self.undo_stack@[i] == old(self).undo_seq()[i]);
                assert(old(self).undo_seq()[i].valid(
                    old(self).layers_seq().len() as int,
                    old(self).wd(),
                    old(self).ht(),
                ));
            }
            let r = self.undo_stack@.last();
            lemma_index_bound(x as int, y as int, w, h);
            let pidx = y as int * w + x as int;
            let s_old = old(self).layer_pix(idx as int);
            let s_new = self.layer_pix(idx as int);
            assert(ws =~= seq![PixelWrite { x, y, color: prior }]);
            assert(r.layer_spec() == idx as int);
            assert(r.apply_pix(s_new, w) == crate::history::apply_writes(s_new, w, ws));
            assert(crate::history::writes_valid(ws, w, h));
            assert(crate::history::writes_unique(ws, w));
            assert(crate::history::apply_writes(s_new, w, ws) == crate::history::apply_writes(
                s_new.update(pidx, prior),
                w,
                ws.drop_first(),
            ));
            assert(crate::history::apply_writes(s_new.update(pidx, prior), w, ws.drop_first())
                == s_new.update(pidx, prior));
            assert(s_new =~= s_old.update(pidx, c)) by {
                assert forall|i: int| 0 <= i < s_new.len() implies s_new[i] == s_old.update(
                    pidx,
                    c,
                )[i] by {
                    let xx = i % w;
                    let yy = i / w;
                    vstd::arithmetic::div_mod::lemma_fundamental_div_mod(i, w);
                    vstd::arithmetic::div_mod::lemma_mod_bound(i, w);
                    assert(w * yy + xx == yy * w + xx) by (nonlinear_arith);
                    assert(i == yy * w + xx);
                    assert(0 <= yy < h) by (nonlinear_arith)
                        requires
                            i == yy * w + xx,
                            0 <= i < w * h,
                            0 <= xx < w,
                            1 <= w,
                    ;
                    if i == pidx {
                        crate::bitmap::lemma_index_injective(xx, yy, x as int, y as int, w);
                        assert(s_new[i] == c);
                    } else {
                        assert(!(xx == x as int && yy == y as int));
                        assert(self.layer_at(idx as int, xx, yy) == old(self).layer_at(
                            idx as int,
                            xx,
                            yy,
                        ));
                    }
                }
            }
            assert(s_new.update(pidx, prior) =~= s_old);
        }
        CanvasEffect::Update
    }

    /// Performs a reversible record on the layer it names and returns
    /// the record that reverses the application.
    fn apply_record(&mut self, r: Reversible) -> (inv: Reversible)
        requires
            old(self).wf(),
            r.valid(old(self).layers_seq().len() as int, old(self).wd(), old(self).ht()),
        ensures
            final(self).wf(),
            final(self).same_layers_except(*old(self), r.layer_spec()),
            final(self).wd() == old(self).wd() && final(self).ht() == old(self).ht(),
            final(self).layers_seq().len() == old(self).layers_seq().len(),
            final(self).layer_pix(r.layer_spec()) == r.apply_pix(
                old(self).layer_pix(r.layer_spec()),
                old(self).wd(),
            ),
            inv.valid(final(self).layers_seq().len() as int, final(self).wd(), final(self).ht()),
            inv.layer_spec() == r.layer_spec(),
            inv.apply_pix(final(self).layer_pix(r.layer_spec()), final(self).wd()) == old(
                self,
            ).layer_pix(r.layer_spec()),
            final(self).same_meta(*old(self)),
            final(self).undo_seq() == old(self).undo_seq(),
            final(self).redo_seq() == old(self).redo_seq(),
    {
        let ghost w = old(self).wd();
        let ghost h = old(self).ht();
        match r {
            Reversible::WholeLayer { layer, bitmap } => {
                let mut l = self.layers.remove(layer);
                let snapshot = l.canvas().inner().duplicate();
                l.canvas_mut().set_bitmap(bitmap);
                self.layers.insert(layer, l);
                proof {
                    assert(self.layers@ =~= old(self).layers@.update(
                        layer as int,
                        self.layers@[layer as int],
                    ));
                    assert forall|i: int|
                        0 <= i < self.layers@.len() implies (#[trigger] self.layers@[i]).wf()
                        && self.layers@[i].cv().bm().wd() == old(self).wd()
                        && self.layers@[i].cv().bm().ht() == old(self).ht() by {
                        if i != layer as int {
                            assert(self.layers@[i] == old(self).layers@[i]);
                        }
                    }
                    State::lemma_meta_frame(*old(self), *self);
                }
                Reversible::WholeLayer { layer, bitmap: snapshot }
            },
            Reversible::Pixels { layer, writes } => {
                let ghost ws = writes@;
                proof {
                    assert(old(self).layers_seq()[layer as int].wf());
                }
                let mut l = self.layers.remove(layer);
                let ghost s_old = l.cv().bm().pix();
                let mut inv_writes: Vec<PixelWrite> = Vec::new();
                let bm = l.canvas_mut().bitmap_mut();
                let mut k: usize = 0;
                while k < writes.len()
                    invariant
                        bm.wf(),
                        bm.wd() == w,
                        bm.ht() == h,
                        s_old.len() == w * h,
                        1 <= w <= 0xffff,
                        1 <= h <= 0xffff,
                        crate::history::writes_valid(ws, w, h),
                        crate::history::writes_unique(ws, w),
                        writes@ == ws,
                        k <= ws.len(),
                        inv_writes@.len() == k as int,
                        forall|j: int|
                            0 <= j < k as int ==> (#[trigger] inv_writes@[j]).x == ws[j].x
                                && inv_writes@[j].y == ws[j].y && inv_writes@[j].color
                                == s_old[crate::history::write_idx(w, ws[j])],
                        forall|j: int|
                            0 <= j < k as int ==> bm.at(
                                (#[trigger] ws[j]).x as int,
                                ws[j].y as int,
                            ) == ws[j].color,
                        forall|u: int, v: int|
                            bm.in_bounds(u, v) && !(exists|j: int|
                                0 <= j < k as int && (#[trigger] ws[j]).x as int == u && ws[j].y
                                    as int == v) ==> bm.at(u, v) == s_old[v * w + u],
                    decreases ws.len() - k as int,
                {
                    let wk: PixelWrite = writes[k];
                    let prior: Color = bm.pixel(wk.x, wk.y);
                    proof {
                        lemma_index_bound(wk.x as int, wk.y as int, w, h);
                        assert(prior == s_old[crate::history::write_idx(w, ws[k as int])]) by {
                            if exists|j: int|
                                0 <= j < k as int && (#[trigger] ws[j]).x as int == wk.x as int
                                    && ws[j].y as int == wk.y as int {
                                let j = choose|j: int|
                                    0 <= j < k as int && (#[trigger] ws[j]).x as int
                                        == wk.x as int && ws[j].y as int == wk.y as int;
                                assert(crate::history::write_idx(w, ws[j])
                                    == crate::history::write_idx(w, ws[k as int]));
                            }
                        }
                    }
                    inv_writes.push(PixelWrite { x: wk.x, y: wk.y, color: prior });
                    bm.set_pixel(wk.x, wk.y, wk.color);
                    proof {
                        assert forall|j: int|
                            0 <= j < k as int + 1 implies bm.at(
                            (#[trigger] ws[j]).x as int,
                            ws[j].y as int,
                        ) == ws[j].color by {
                            if j < k as int {
                                if ws[j].x as int == wk.x as int && ws[j].y as int == wk.y as int {
                                    assert(crate::history::write_idx(w, ws[j])
                                        == crate::history::write_idx(w, ws[k as int]));
                                }
                            }
                        }
                    }
                    k = k + 1;
                }
                let ghost s_new = bm.pix();
                proof {
                    assert(s_new =~= crate::history::apply_writes(s_old, w, ws)) by {
                        crate::history::lemma_apply_writes_len(s_old, w, h, ws);
                        assert forall|i: int|
                            0 <= i < s_new.len() implies s_new[i] == crate::history::apply_writes(
                            s_old,
                            w,
                            ws,
                        )[i] by {
                            let xx = i % w;
                            let yy = i / w;
                            vstd::arithmetic::div_mod::lemma_fundamental_div_mod(i, w);
                            vstd::arithmetic::div_mod::lemma_mod_bound(i, w);
                            assert(w * yy + xx == yy * w + xx) by (nonlinear_arith);
                            assert(i == yy * w + xx);
                            assert(0 <= yy < h) by (nonlinear_arith)
                                requires
                                    i == yy * w + xx,
                                    0 <= i < w * h,
                                    0 <= xx < w,
                                    1 <= w,
                            ;
                            if exists|j: int|
                                0 <= j < ws.len() && (#[trigger] ws[j]).x as int == xx && ws[j].y
                                    as int == yy {
                                let j = choose|j: int|
                                    0 <= j < ws.len() && (#[trigger] ws[j]).x as int == xx
                                        && ws[j].y as int == yy;
                                crate::history::lemma_apply_writes_hit(s_old, w, h, ws, j);
                                assert(crate::history::write_idx(w, ws[j]) == i);
                                assert(bm.at(xx, yy) == ws[j].color);
                            } else {
                                assert(!crate::history::writes_cover(ws, w, i)) by {
                                    if crate::history::writes_cover(ws, w, i) {
                                        let j = choose|j: int|
                                            0 <= j < ws.len()
                                                && #[trigger] crate::history::write_idx(
                                                w,
                                                ws[j],
                                            ) == i;
                                        crate::bitmap::lemma_index_injective(
                                            ws[j].x as int,
                                            ws[j].y as int,
                                            xx,
                                            yy,
                                            w,
                                        );
                                    }
                                }
                                crate::history::lemma_apply_writes_unchanged(s_old, w, h, ws, i);
                                assert(bm.at(xx, yy) == s_old[i]);
                            }
                        }
                    }
                    assert forall|j: int|
                        0 <= j < inv_writes@.len() implies #[trigger] crate::history::write_idx(
                        w,
                        inv_writes@[j],
                    ) == crate::history::write_idx(w, ws[j]) by {}
                    assert(crate::history::writes_valid(inv_writes@, w, h));
                    assert(crate::history::writes_unique(inv_writes@, w));
                    assert forall|i: int|
                        0 <= i < s_new.len() && !crate::history::writes_cover(inv_writes@, w, i)
                        implies s_new[i] == s_old[i] by {
                        assert(!crate::history::writes_cover(ws, w, i)) by {
                            if crate::history::writes_cover(ws, w, i) {
                                let j = choose|j: int|
                                    0 <= j < ws.len() && #[trigger] crate::history::write_idx(
                                        w,
                                        ws[j],
                                    ) == i;
                                assert(crate::history::write_idx(w, inv_writes@[j]) == i);
                            }
                        }
                        crate::history::lemma_apply_writes_unchanged(s_old, w, h, ws, i);
                    }
                    assert forall|j: int|
                        0 <= j < inv_writes@.len() implies (#[trigger] inv_writes@[j]).color
                        == s_old[crate::history::write_idx(w, inv_writes@[j])] by {}
                    crate::history::lemma_apply_writes_restores(s_old, s_new, w, h, inv_writes@);
                }
                self.layers.insert(layer, l);
                proof {
                    assert(self.layers@ =~= old(self).layers@.update(
                        layer as int,
                        self.layers@[layer as int],
                    ));
                    assert forall|i: int|
                        0 <= i < self.layers@.len() implies (#[trigger] self.layers@[i]).wf()
                        && self.layers@[i].cv().bm().wd() == old(self).wd()
                        && self.layers@[i].cv().bm().ht() == old(self).ht() by {
                        if i != layer as int {
                            assert(self.layers@[i] == old(self).layers@[i]);
                        }
                    }
                    State::lemma_meta_frame(*old(self), *self);
                }
                Reversible::Pixels { layer, writes: inv_writes }
            },
        }
    }

    /// Replaces the whole state with a fresh canvas holding the given
    /// bitmap as its single layer, as loading a file does; the history
    /// is discarded and the main color kept.
    pub fn load(&mut self, bitmap: Bitmap) -> (fx: CanvasEffect)
        requires
            old(self).wf(),
            bitmap.wf(),
        ensures
            final(self).wf(),
            final(self).layers_seq().len() == 1,
            final(self).active_spec() == 0,
            final(self).wd() == bitmap.wd(),
            final(self).ht() == bitmap.ht(),
            forall|x: int, y: int|
                final(self).in_bounds(x, y) ==> final(self).at(x, y) == bitmap.at(x, y),
            final(self).sel_spec() is None,
            final(self).free_spec() is None,
            final(self).color_spec() == old(self).color_spec(),
            final(self).tool_spec() == Tool::Brush,
            final(self).palette_seq().len() == 0,
            final(self).undo_seq().len() == 0,
            final(self).redo_seq().len() == 0,
            final(self).line_start_spec() is None,
            fx == CanvasEffect::New,
    {
        let color = self.main_color;
        let mut st = State::new(bitmap.width(), bitmap.height());
        let mut layer = st.layers.remove(0);
        layer.canvas_mut().set_bitmap(bitmap);
        st.layers.insert(0, layer);
        st.main_color = color;
        *self = st;
        CanvasEffect::New
    }

    fn on_clear_canvas(&mut self) -> (fx: CanvasEffect)
        requires
            old(self).wf(),
        ensures
            final(self).wf(),
            State::execute_post(*old(self), *final(self), Event::ClearCanvas, fx),
    {
        let idx: usize = self.active;
        let mut layer = self.layers.remove(idx);
        let snapshot = layer.canvas().inner().duplicate();
        layer.canvas_mut().bitmap_mut().fill(Color::transparent());
        self.layers.insert(idx, layer);
        proof {
            assert(snapshot.wf());
        }
        self.undo_stack.push(Reversible::WholeLayer { layer: idx, bitmap: snapshot });
        self.redo_stack = Vec::new();
        proof {
            assert(self.layers@ =~= old(self).layers@.update(idx as int, self.layers@[idx as int]));
            assert forall|i: int|
                0 <= i < self.layers@.len() implies (#[trigger] self.layers@[i]).wf()
                && self.layers@[i].cv().bm().wd() == old(self).wd() && self.layers@[i].cv().bm().ht()
                == old(self).ht() by {
                if i != idx as int {
                    assert(self.layers@[i] == old(self).layers@[i]);
                }
            }
            assert forall|k: int, l: int|
                0 <= k < l < self.palette_seq().len() implies self.palette_seq()[k]
                != self.palette_seq()[l] by {
                assert(old(self).palette_seq()[k] != old(self).palette_seq()[l]);
            }
            assert forall|i: int|
                0 <= i < self.undo_stack@.len() - 1 implies (#[trigger] self.undo_stack@[i]).valid(
                self.layers@.len() as int,
                self.wd(),
                self.ht(),
            ) by {
                assert(self.undo_stack@[i] == old(self).undo_seq()[i]);
                assert(old(self).undo_seq()[i].valid(
                    old(self).layers_seq().len() as int,
                    old(self).wd(),
                    old(self).ht(),
                ));
            }
            let r = self.undo_stack@.last();
            assert(r.apply_pix(self.layer_pix(idx as int), self.wd()) == snapshot.pix());
            assert(snapshot.pix() == old(self).layer_pix(idx as int));
        }
        CanvasEffect::Update
    }

    #[verifier::loop_isolation(false)]
    fn on_resize(&mut self, nw: u16, nh: u16) -> (fx: CanvasEffect)
        requires
            old(self).wf(),
            nw >= 1,
            nh >= 1,
        ensures
            final(self).wf(),
            State::execute_post(*old(self), *final(self), Event::ResizeCanvas(nw, nh), fx),
    {
        if self.free_image.is_some() {
            self.merge_free_image();
        }
        let ghost mid = *self;
        self.selection = None;
        self.line_start = None;
        self.undo_stack = Vec::new();
        self.redo_stack = Vec::new();
        proof {
            assert(mid.layers_seq().len() == old(self).layers_seq().len());
            assert forall|i: int, x: int, y: int|
                0 <= i < mid.layers_seq().len() && old(self).in_bounds(x, y) implies
                #[trigger] mid.layer_at(i, x, y) == old(self).merged_at(i, x, y) by {
                if old(self).free_spec() is Some {
                    if i != old(self).active_spec() {
                        assert(mid.layers_seq()[i] == old(self).layers_seq()[i]);
                    } else {
                        assert(mid.in_bounds(x, y));
                        assert(mid.at(x, y) == old(self).merged_at(old(self).active_spec(), x, y));
                    }
                } else {
                    assert(mid.layers_seq()[i] == old(self).layers_seq()[i]);
                }
            }
        }
        let mut i: usize = 0;
        while i < self.layers.len()
            invariant
                self.layers@.len() == mid.layers_seq().len(),
                i <= self.layers@.len(),
                forall|j: int|
                    i as int <= j < self.layers@.len() ==> #[trigger] self.layers@[j]
                        == mid.layers_seq()[j],
                forall|j: int|
                    0 <= j < i as int ==> {
                        let l = #[trigger] self.layers@[j];
                        &&& l.wf()
                        &&& l.cv().bm().wd() == nw as int
                        &&& l.cv().bm().ht() == nh as int
                        &&& l.is_visible() == mid.layers_seq()[j].is_visible()
                        &&& l.op() == mid.layers_seq()[j].op()
                        &&& forall|x: int, y: int|
                            l.cv().bm().in_bounds(x, y) ==> l.cv().bm().at(x, y) == (
                            if mid.layers_seq()[j].cv().bm().in_bounds(x, y) {
                                mid.layer_at(j, x, y)
                            } else {
                                Color::transparent_spec()
                            })
                    },
                self.selection is None,
                self.free_image is None,
                self.line_start is None,
                self.undo_stack@.len() == 0,
                self.redo_stack@.len() == 0,
                self.active == mid.active_spec(),
                self.palette@ == mid.palette_seq(),
                self.tool == mid.tool_spec(),
                self.main_color == mid.color_spec(),
            decreases self.layers@.len() - i as int,
        {
            let mut layer = self.layers.remove(i);
            let nb = layer.canvas().inner().resized(nw, nh);
            layer.canvas_mut().set_bitmap(nb);
            self.layers.insert(i, layer);
            proof {
                assert forall|j: int|
                    i as int + 1 <= j < self.layers@.len() implies #[trigger] self.layers@[j]
                    == mid.layers_seq()[j] by {}
            }
            i = i + 1;
        }
        proof {
            assert forall|k: int, l: int|
                0 <= k < l < self.palette_seq().len() implies self.palette_seq()[k]
                != self.palette_seq()[l] by {
                assert(old(self).palette_seq()[k] != old(self).palette_seq()[l]);
            }
        }
        CanvasEffect::New
    }

    fn on_start_selection(&mut self, rect: Rect) -> (fx: CanvasEffect)
        requires
            old(self).wf(),
        ensures
            final(self).wf(),
            State::execute_post(*old(self), *final(self), Event::StartSelection(rect), fx),
    {
        let merged: bool = self.free_image.is_some();
        if merged {
            self.merge_free_image();
        }
        let ghost mid = *self;
        let w: u16 = self.width();
        let h: u16 = self.height();
        let clipped: Rect = if rect.x < w && rect.y < h && rect.w >= 1 && rect.h >= 1 {
            let x2: u32 = if rect.x as u32 + rect.w as u32 <= w as u32 {
                rect.x as u32 + rect.w as u32
            } else {
                w as u32
            };
            let y2: u32 = if rect.y as u32 + rect.h as u32 <= h as u32 {
                rect.y as u32 + rect.h as u32
            } else {
                h as u32
            };
            Rect::new(rect.x, rect.y, (x2 - rect.x as u32) as u16, (y2 - rect.y as u32) as u16)
        } else {
            Rect::new(0, 0, 0, 0)
        };
        proof {
            assert(clipped == State::clip_rect(rect, old(self).wd(), old(self).ht()));
        }
        if clipped.w >= 1 && clipped.h >= 1 {
            self.selection = Some(Selection::Canvas(clipped));
        } else {
            self.selection = None;
        }
        proof {
            if merged {
                assert forall|x: int, y: int|
                    self.in_bounds(x, y) implies self.at(x, y) == old(self).merged_at(
                    old(self).active_spec(),
                    x,
                    y,
                ) by {
                    assert(mid.in_bounds(x, y));
                    assert(mid.at(x, y) == old(self).merged_at(old(self).active_spec(), x, y));
                    assert(self.at(x, y) == mid.at(x, y));
                }
                assert(self.same_layers_except(*old(self), old(self).active_spec())) by {
                    assert forall|j: int|
                        0 <= j < self.layers_seq().len() && j != old(self).active_spec() implies
                        self.layers_seq()[j] == old(self).layers_seq()[j] by {
                        assert(mid.layers_seq()[j] == old(self).layers_seq()[j]);
                    }
                }
            } else {
                assert forall|k: int, l: int|
                    0 <= k < l < self.palette_seq().len() implies self.palette_seq()[k]
                    != self.palette_seq()[l] by {
                    assert(old(self).palette_seq()[k] != old(self).palette_seq()[l]);
                }
                State::lemma_meta_frame(*old(self), *self);
            }
        }
        if merged {
            CanvasEffect::Update
        } else {
            CanvasEffect::Unchanged
        }
    }

    fn on_clear_selection(&mut self) -> (fx: CanvasEffect)
        requires
            old(self).wf(),
        ensures
            final(self).wf(),
            State::execute_post(*old(self), *final(self), Event::ClearSelection, fx),
    {
        if self.free_image.is_some() {
            self.merge_free_image();
            CanvasEffect::Update
        } else {
            self.selection = None;
            proof {
                State::lemma_meta_frame(*old(self), *self);
            }
            CanvasEffect::Unchanged
        }
    }

    fn on_cut(&mut self) -> (fx: CanvasEffect)
        requires
            old(self).wf(),
        ensures
            final(self).wf(),
            State::execute_post(*old(self), *final(self), Event::Cut, fx),
    {
        match self.selection {
            Some(Selection::Canvas(rect)) => {
                let idx: usize = self.active;
                let mut layer = self.layers.remove(idx);
                let content = layer.canvas().inner().extract(rect);
                layer.canvas_mut().bitmap_mut().clear_rect(rect);
                self.layers.insert(idx, layer);
                self.free_image = Some(FreeImage::new(content, rect.x as i32, rect.y as i32));
                self.selection = Some(Selection::FreeImage);
                proof {
                    assert(self.layers@ =~= old(self).layers@.update(
                        idx as int,
                        self.layers@[idx as int],
                    ));
                    assert forall|i: int|
                        0 <= i < self.layers@.len() implies (#[trigger] self.layers@[i]).wf()
                        && self.layers@[i].cv().bm().wd() == old(self).wd()
                        && self.layers@[i].cv().bm().ht() == old(self).ht() by {
                        if i != idx as int {
                            assert(self.layers@[i] == old(self).layers@[i]);
                        }
                    }
                    State::lemma_meta_frame(*old(self), *self);
                }
                CanvasEffect::Update
            },
            _ => CanvasEffect::Unchanged,
        }
    }

    fn on_copy(&mut self) -> (fx: CanvasEffect)
        requires
            old(self).wf(),
        ensures
            final(self).wf(),
            State::execute_post(*old(self), *final(self), Event::Copy, fx),
    {
        match self.selection {
            Some(Selection::Canvas(rect)) => {
                let idx: usize = self.active;
                let content = self.layers[idx].canvas().inner().extract(rect);
                self.free_image = Some(FreeImage::new(content, rect.x as i32, rect.y as i32));
                self.selection = Some(Selection::FreeImage);
                proof {
                    State::lemma_meta_frame(*old(self), *self);
                }
                CanvasEffect::Unchanged
            },
            _ => CanvasEffect::Unchanged,
        }
    }

    fn on_add_layer(&mut self) -> (fx: CanvasEffect)
        requires
            old(self).wf(),
        ensures
            final(self).wf(),
            State::execute_post(*old(self), *final(self), Event::AddLayer, fx),
    {
        let w: u16 = self.width();
        let h: u16 = self.height();
        let layer = Layer::new(Canvas::new(Bitmap::new(w, h, Color::transparent())));
        self.layers.push(layer);
        proof {
            assert forall|i: int|
                0 <= i < self.layers@.len() implies (#[trigger] self.layers@[i]).wf()
                && self.layers@[i].cv().bm().wd() == old(self).wd() && self.layers@[i].cv().bm().ht()
                == old(self).ht() by {
                if i < self.layers@.len() - 1 {
                    assert(self.layers@[i] == old(self).layers@[i]);
                }
            }
            State::lemma_meta_frame(*old(self), *self);
        }
        CanvasEffect::Layer
    }

    fn on_undo(&mut self) -> (fx: CanvasEffect)
        requires
            old(self).wf(),
        ensures
            final(self).wf(),
            State::execute_post(*old(self), *final(self), Event::Undo, fx),
    {
        if self.undo_stack.len() == 0 {
            return CanvasEffect::Unchanged;
        }
        let ghost n = old(self).undo_seq().len();
        let r = self.undo_stack.pop().unwrap();
        proof {
            assert(r == old(self).undo_seq().last());
            assert(old(self).undo_seq()[n - 1].valid(
                old(self).layers_seq().len() as int,
                old(self).wd(),
                old(self).ht(),
            ));
            assert forall|i: int|
                0 <= i < self.undo_stack@.len() implies (#[trigger] self.undo_stack@[i]).valid(
                self.layers@.len() as int,
                self.wd(),
                self.ht(),
            ) by {
                assert(self.undo_stack@[i] == old(self).undo_seq()[i]);
                assert(old(self).undo_seq()[i].valid(
                    old(self).layers_seq().len() as int,
                    old(self).wd(),
                    old(self).ht(),
                ));
            }
            assert forall|i: int|
                0 <= i < self.redo_stack@.len() implies (#[trigger] self.redo_stack@[i]).valid(
                self.layers@.len() as int,
                self.wd(),
                self.ht(),
            ) by {
                assert(self.redo_stack@[i] == old(self).redo_seq()[i]);
                assert(old(self).redo_seq()[i].valid(
                    old(self).layers_seq().len() as int,
                    old(self).wd(),
                    old(self).ht(),
                ));
            }
            assert forall|k: int, l: int|
                0 <= k < l < self.palette_seq().len() implies self.palette_seq()[k]
                != self.palette_seq()[l] by {
                assert(old(self).palette_seq()[k] != old(self).palette_seq()[l]);
            }
        }
        let inv = self.apply_record(r);
        self.redo_stack.push(inv);
        proof {
            assert forall|i: int|
                0 <= i < self.redo_stack@.len() - 1 implies (#[trigger] self.redo_stack@[i]).valid(
                self.layers@.len() as int,
                self.wd(),
                self.ht(),
            ) by {
                assert(self.redo_stack@[i] == old(self).redo_seq()[i]);
                assert(old(self).redo_seq()[i].valid(
                    old(self).layers_seq().len() as int,
                    old(self).wd(),
                    old(self).ht(),
                ));
            }
            assert forall|i: int|
                0 <= i < self.undo_stack@.len() implies (#[trigger] self.undo_stack@[i]).valid(
                self.layers@.len() as int,
                self.wd(),
                self.ht(),
            ) by {
                assert(self.undo_stack@[i] == old(self).undo_seq()[i]);
                assert(old(self).undo_seq()[i].valid(
                    old(self).layers_seq().len() as int,
                    old(self).wd(),
                    old(self).ht(),
                ));
            }
        }
        CanvasEffect::Update
    }

    fn on_redo(&mut self) -> (fx: CanvasEffect)
        requires
            old(self).wf(),
        ensures
            final(self).wf(),
            State::execute_post(*old(self), *final(self), Event::Redo, fx),
    {
        if self.redo_stack.len() == 0 {
            return CanvasEffect::Unchanged;
        }
        let ghost n = old(self).redo_seq().len();
        let r = self.redo_stack.pop().unwrap();
        proof {
            assert(r == old(self).redo_seq().last());
            assert(old(self).redo_seq()[n - 1].valid(
                old(self).layers_seq().len() as int,
                old(self).wd(),
                old(self).ht(),
            ));
            assert forall|i: int|
                0 <= i < self.redo_stack@.len() implies (#[trigger] self.redo_stack@[i]).valid(
                self.layers@.len() as int,
                self.wd(),
                self.ht(),
            ) by {
                assert(self.redo_stack@[i] == old(self).redo_seq()[i]);
                assert(old(self).redo_seq()[i].valid(
                    old(self).layers_seq().len() as int,
                    old(self).wd(),
                    old(self).ht(),
                ));
            }
            assert forall|i: int|
                0 <= i < self.undo_stack@.len() implies (#[trigger] self.undo_stack@[i]).valid(
                self.layers@.len() as int,
                self.wd(),
                self.ht(),
            ) by {
                assert(self.undo_stack@[i] == old(self).undo_seq()[i]);
                assert(old(self).undo_seq()[i].valid(
                    old(self).layers_seq().len() as int,
                    old(self).wd(),
                    old(self).ht(),
                ));
            }
            assert forall|k: int, l: int|
                0 <= k < l < self.palette_seq().len() implies self.palette_seq()[k]
                != self.palette_seq()[l] by {
                assert(old(self).palette_seq()[k] != old(self).palette_seq()[l]);
            }
        }
        let inv = self.apply_record(r);
        self.undo_stack.push(inv);
        proof {
            assert forall|i: int|
                0 <= i < self.undo_stack@.len() - 1 implies (#[trigger] self.undo_stack@[i]).valid(
                self.layers@.len() as int,
                self.wd(),
                self.ht(),
            ) by {
                assert(self.undo_stack@[i] == old(self).undo_seq()[i]);
                assert(old(self).undo_seq()[i].valid(
                    old(self).layers_seq().len() as int,
                    old(self).wd(),
                    old(self).ht(),
                ));
            }
            assert forall|i: int|
                0 <= i < self.redo_stack@.len() implies (#[trigger] self.redo_stack@[i]).valid(
                self.layers@.len() as int,
                self.wd(),
                self.ht(),
            ) by {
                assert(self.redo_stack@[i] == old(self).redo_seq()[i]);
                assert(old(self).redo_seq()[i].valid(
                    old(self).layers_seq().len() as int,
                    old(self).wd(),
                    old(self).ht(),
                ));
            }
        }
        CanvasEffect::Update
    }

    fn on_draw(&mut self, x: u16, y: u16) -> (fx: CanvasEffect)
        requires
            old(self).wf(),
        ensures
            final(self).wf(),
            State::execute_post(*old(self), *final(self), Event::Draw(x, y), fx),
    {
        let w: u16 = self.width();
        let h: u16 = self.height();
        if x >= w || y >= h {
            return CanvasEffect::Unchanged;
        }
        match self.tool {
            Tool::Brush => {
                let c: Color = self.main_color;
                self.paint_pixel(x, y, c, true)
            },
            Tool::Eraser => self.paint_pixel(x, y, Color::transparent(), false),
            Tool::Eyedropper => {
                let seen: Color = self.visible_pixel(x, y);
                self.main_color = seen;
                proof {
                    assert forall|k: int, l: int|
                        0 <= k < l < self.palette@.len() implies self.palette@[k]
                        != self.palette@[l] by {
                        assert(self.palette@ == old(self).palette_seq());
                        assert(old(self).palette_seq()[k] != old(self).palette_seq()[l]);
                    }
                }
                self.record_palette(seen);
                proof {
                    State::lemma_stacks_only(*old(self), *self);
                }
                CanvasEffect::Unchanged
            },
            Tool::Bucket => {
                let color: Color = self.main_color;
                let c0: Color = self.layers[self.active].canvas().inner().pixel(x, y);
                if c0 == color {
                    return CanvasEffect::Unchanged;
                }
                let idx: usize = self.active;
                let mut layer = self.layers.remove(idx);
                let ws = crate::bucket::flood_fill(layer.canvas_mut().bitmap_mut(), x, y, color);
                self.layers.insert(idx, layer);
                let ghost wsv = ws@;
                self.undo_stack.push(Reversible::Pixels { layer: idx, writes: ws });
                self.redo_stack = Vec::new();
                proof {
                    assert forall|k: int, l: int|
                        0 <= k < l < self.palette@.len() implies self.palette@[k]
                        != self.palette@[l] by {
                        assert(self.palette@ == old(self).palette_seq());
                        assert(old(self).palette_seq()[k] != old(self).palette_seq()[l]);
                    }
                }
                self.record_palette(color);
                proof {
                    assert(self.layers@ =~= old(self).layers@.update(
                        idx as int,
                        self.layers@[idx as int],
                    ));
                    assert forall|i: int|
                        0 <= i < self.layers@.len() implies (#[trigger] self.layers@[i]).wf()
                        && self.layers@[i].cv().bm().wd() == old(self).wd()
                        && self.layers@[i].cv().bm().ht() == old(self).ht() by {
                        if i != idx as int {
                            assert(self.layers@[i] == old(self).layers@[i]);
                        }
                    }
                    assert forall|i: int|
                        0 <= i < self.undo_stack@.len() - 1 implies (
                        #[trigger] self.undo_stack@[i]).valid(
                        self.layers@.len() as int,
                        self.wd(),
                        self.ht(),
                    ) by {
                        assert(self.undo_stack@[i] == old(self).undo_seq()[i]);
                        assert(old(self).undo_seq()[i].valid(
                            old(self).layers_seq().len() as int,
                            old(self).wd(),
                            old(self).ht(),
                        ));
                    }
                    let r = self.undo_stack@.last();
                    assert(r.apply_pix(self.layer_pix(idx as int), self.wd())
                        == crate::history::apply_writes(self.layer_pix(idx as int), self.wd(), wsv));
                }
                CanvasEffect::Update
            },
            Tool::Line => {
                match self.line_start {
                    Some(p) => {
                        let sx: u16 = p.0;
                        let sy: u16 = p.1;
                        let color: Color = self.main_color;
                        let idx: usize = self.active;
                        let mut layer = self.layers.remove(idx);
                        let ws = crate::line::draw_line(
                            layer.canvas_mut().bitmap_mut(),
                            sx,
                            sy,
                            x,
                            y,
                            color,
                        );
                        self.layers.insert(idx, layer);
                        let ghost wsv = ws@;
                        self.undo_stack.push(Reversible::Pixels { layer: idx, writes: ws });
                        self.redo_stack = Vec::new();
                        self.line_start = None;
                        proof {
                            assert forall|k: int, l: int|
                                0 <= k < l < self.palette@.len() implies self.palette@[k]
                                != self.palette@[l] by {
                                assert(self.palette@ == old(self).palette_seq());
                                assert(old(self).palette_seq()[k] != old(self).palette_seq()[l]);
                            }
                        }
                        self.record_palette(color);
                        proof {
                            assert(self.layers@ =~= old(self).layers@.update(
                                idx as int,
                                self.layers@[idx as int],
                            ));
                            assert forall|i: int|
                                0 <= i < self.layers@.len() implies (
                                #[trigger] self.layers@[i]).wf() && self.layers@[i].cv().bm().wd()
                                == old(self).wd() && self.layers@[i].cv().bm().ht() == old(
                                self,
                            ).ht() by {
                                if i != idx as int {
                                    assert(self.layers@[i] == old(self).layers@[i]);
                                }
                            }
                            assert forall|i: int|
                                0 <= i < self.undo_stack@.len() - 1 implies (
                                #[trigger] self.undo_stack@[i]).valid(
                                self.layers@.len() as int,
                                self.wd(),
                                self.ht(),
                            ) by {
                                assert(self.undo_stack@[i] == old(self).undo_seq()[i]);
                                assert(old(self).undo_seq()[i].valid(
                                    old(self).layers_seq().len() as int,
                                    old(self).wd(),
                                    old(self).ht(),
                                ));
                            }
                            let r = self.undo_stack@.last();
                            assert(r.apply_pix(self.layer_pix(idx as int), self.wd())
                                == crate::history::apply_writes(
                                self.layer_pix(idx as int),
                                self.wd(),
                                wsv,
                            ));
                        }
                        CanvasEffect::Update
                    },
                    _ => {
                        self.line_start = Some((x, y));
                        proof {
                            State::lemma_stacks_only(*old(self), *self);
                            State::lemma_palette_frame(*old(self), *self);
                        }
                        CanvasEffect::Unchanged
                    },
                }
            },
        }
    }

    /// Frame helper: an unchanged palette keeps its uniqueness.
    proof fn lemma_palette_frame(pre: State, post: State)
        requires
            pre.wf(),
            post.palette_seq() == pre.palette_seq(),
        ensures
            forall|k: int, l: int|
                0 <= k < l < post.palette_seq().len() ==> post.palette_seq()[k]
                    != post.palette_seq()[l],
    {
        assert forall|k: int, l: int|
            0 <= k < l < post.palette_seq().len() implies post.palette_seq()[k]
            != post.palette_seq()[l] by {
            assert(pre.palette_seq()[k] != pre.palette_seq()[l]);
        }
    }

    /// Frame helper for steps that leave layers, stacks and palette
    /// untouched.
    proof fn lemma_stacks_only(pre: State, post: State)
        requires
            pre.wf(),
            post.undo_seq() == pre.undo_seq(),
            post.redo_seq() == pre.redo_seq(),
            post.layers_seq().len() >= pre.layers_seq().len(),
            post.wd() == pre.wd(),
            post.ht() == pre.ht(),
        ensures
            forall|i: int|
                0 <= i < post.undo_seq().len() ==> (#[trigger] post.undo_seq()[i]).valid(
                    post.layers_seq().len() as int,
                    post.wd(),
                    post.ht(),
                ),
            forall|i: int|
                0 <= i < post.redo_seq().len() ==> (#[trigger] post.redo_seq()[i]).valid(
                    post.layers_seq().len() as int,
                    post.wd(),
                    post.ht(),
                ),
    {
        assert forall|i: int|
            0 <= i < post.undo_seq().len() implies (#[trigger] post.undo_seq()[i]).valid(
            post.layers_seq().len() as int,
            post.wd(),
            post.ht(),
        ) by {
            assert(pre.undo_seq()[i].valid(pre.layers_seq().len() as int, pre.wd(), pre.ht()));
        }
        assert forall|i: int|
            0 <= i < post.redo_seq().len() implies (#[trigger] post.redo_seq()[i]).valid(
            post.layers_seq().len() as int,
            post.wd(),
            post.ht(),
        ) by {
            assert(pre.redo_seq()[i].valid(pre.layers_seq().len() as int, pre.wd(), pre.ht()));
        }
    }

    fn on_remove_layer(&mut self, index: usize) -> (fx: CanvasEffect)
        requires
            old(self).wf(),
        ensures
            final(self).wf(),
            State::execute_post(*old(self), *final(self), Event::RemoveLayer(index), fx),
    {
        if self.layers.len() <= 1 || index >= self.layers.len() {
            return CanvasEffect::Unchanged;
        }
        self.layers.remove(index);
        if self.active == index {
            self.active = 0;
        } else if self.active > index {
            self.active = self.active - 1;
        }
        self.undo_stack = Vec::new();
        self.redo_stack = Vec::new();
        proof {
            assert forall|j: int|
                0 <= j < self.layers@.len() implies (#[trigger] self.layers@[j]).wf()
                && self.layers@[j].cv().bm().wd() == old(self).wd() && self.layers@[j].cv().bm().ht()
                == old(self).ht() by {
                if j < index as int {
                    assert(self.layers@[j] == old(self).layers@[j]);
                } else {
                    assert(self.layers@[j] == old(self).layers@[j + 1]);
                }
            }
            assert forall|k: int, l: int|
                0 <= k < l < self.palette_seq().len() implies self.palette_seq()[k]
                != self.palette_seq()[l] by {
                assert(old(self).palette_seq()[k] != old(self).palette_seq()[l]);
            }
        }
        CanvasEffect::Layer
    }

    fn on_move_layer(&mut self, from: usize, to: usize) -> (fx: CanvasEffect)
        requires
            old(self).wf(),
        ensures
            final(self).wf(),
            State::execute_post(*old(self), *final(self), Event::MoveLayer(from, to), fx),
    {
        if from >= self.layers.len() || to >= self.layers.len() || from == to {
            return CanvasEffect::Unchanged;
        }
        let layer = self.layers.remove(from);
        self.layers.insert(to, layer);
        if self.active == from {
            self.active = to;
        } else if from < self.active && to >= self.active {
            self.active = self.active - 1;
        } else if from > self.active && to <= self.active {
            self.active = self.active + 1;
        }
        self.undo_stack = Vec::new();
        self.redo_stack = Vec::new();
        proof {
            let ghost rem = old(self).layers@.remove(from as int);
            assert forall|j: int|
                0 <= j < self.layers@.len() implies (#[trigger] self.layers@[j]).wf()
                && self.layers@[j].cv().bm().wd() == old(self).wd() && self.layers@[j].cv().bm().ht()
                == old(self).ht() by {
                if j == to as int {
                    assert(self.layers@[j] == old(self).layers@[from as int]);
                } else if j < to as int {
                    assert(self.layers@[j] == rem[j]);
                    if j < from as int {
                        assert(rem[j] == old(self).layers@[j]);
                    } else {
                        assert(rem[j] == old(self).layers@[j + 1]);
                    }
                } else {
                    assert(self.layers@[j] == rem[j - 1]);
                    if j - 1 < from as int {
                        assert(rem[j - 1] == old(self).layers@[j - 1]);
                    } else {
                        assert(rem[j - 1] == old(self).layers@[j]);
                    }
                }
            }
            assert forall|k: int, l: int|
                0 <= k < l < self.palette_seq().len() implies self.palette_seq()[k]
                != self.palette_seq()[l] by {
                assert(old(self).palette_seq()[k] != old(self).palette_seq()[l]);
            }
        }
        CanvasEffect::Layer
    }

    fn on_merge_layer_down(&mut self, index: usize) -> (fx: CanvasEffect)
        requires
            old(self).wf(),
        ensures
            final(self).wf(),
            State::execute_post(*old(self), *final(self), Event::MergeLayerDown(index), fx),
    {
        if index == 0 || index >= self.layers.len() {
            return CanvasEffect::Unchanged;
        }
        let upper = self.layers.remove(index);
        let mut lower = self.layers.remove(index - 1);
        lower.canvas_mut().bitmap_mut().merge_blend(upper.canvas().inner(), 0, 0);
        self.layers.insert(index - 1, lower);
        if self.active == index {
            self.active = index - 1;
        } else if self.active > index {
            self.active = self.active - 1;
        }
        self.undo_stack = Vec::new();
        self.redo_stack = Vec::new();
        proof {
            let i = index as int;
            assert(self.layers@ =~= old(self).layers@.remove(i).update(
                i - 1,
                self.layers@[i - 1],
            ));
            assert forall|j: int|
                0 <= j < self.layers@.len() implies (#[trigger] self.layers@[j]).wf()
                && self.layers@[j].cv().bm().wd() == old(self).wd() && self.layers@[j].cv().bm().ht()
                == old(self).ht() by {
                if j < i - 1 {
                    assert(self.layers@[j] == old(self).layers@[j]);
                } else if j >= i {
                    assert(self.layers@[j] == old(self).layers@[j + 1]);
                }
            }
            assert forall|j: int|
                0 <= j < i - 1 implies #[trigger] self.layers@[j] == old(self).layers@[j] by {}
            assert forall|j: int|
                i <= j < self.layers@.len() implies #[trigger] self.layers@[j] == old(
                self,
            ).layers@[j + 1] by {}
            assert forall|x: int, y: int|
                old(self).in_bounds(x, y) implies #[trigger] self.layer_at(i - 1, x, y) == old(
                self,
            ).layer_at(i, x, y).over_spec(old(self).layer_at(i - 1, x, y)) by {
                assert(old(self).layers_seq()[i].cv().bm().wd() == old(self).wd());
            }
            assert forall|k: int, l: int|
                0 <= k < l < self.palette_seq().len() implies self.palette_seq()[k]
                != self.palette_seq()[l] by {
                assert(old(self).palette_seq()[k] != old(self).palette_seq()[l]);
            }
        }
        CanvasEffect::Layer
    }

    #[verifier::loop_isolation(false)]
    fn on_set_spritesheet(&mut self, gx: u16, gy: u16) -> (fx: CanvasEffect)
        requires
            old(self).wf(),
            gx >= 1,
            gy >= 1,
        ensures
            final(self).wf(),
            State::execute_post(*old(self), *final(self), Event::SetSpritesheet(gx, gy), fx),
    {
        let mut i: usize = 0;
        while i < self.layers.len()
            invariant
                self.layers@.len() == old(self).layers_seq().len(),
                i <= self.layers@.len(),
                forall|j: int|
                    i as int <= j < self.layers@.len() ==> #[trigger] self.layers@[j] == old(
                        self,
                    ).layers_seq()[j],
                forall|j: int|
                    0 <= j < i as int ==> {
                        let l = #[trigger] self.layers@[j];
                        &&& l.cv().bm() == old(self).layers_seq()[j].cv().bm()
                        &&& l.cv().gx() == gx as int
                        &&& l.cv().gy() == gy as int
                        &&& l.is_visible() == old(self).layers_seq()[j].is_visible()
                        &&& l.op() == old(self).layers_seq()[j].op()
                    },
                self.active == old(self).active_spec(),
                self.selection == old(self).sel_spec(),
                self.free_image == old(self).free_spec(),
                self.tool == old(self).tool_spec(),
                self.main_color == old(self).color_spec(),
                self.palette@ == old(self).palette_seq(),
                self.line_start == old(self).line_start_spec(),
                self.undo_stack@ == old(self).undo_seq(),
                self.redo_stack@ == old(self).redo_seq(),
            decreases self.layers@.len() - i as int,
        {
            let mut layer = self.layers.remove(i);
            layer.canvas_mut().set_grid(gx, gy);
            self.layers.insert(i, layer);
            i = i + 1;
        }
        proof {
            assert forall|j: int|
                0 <= j < self.layers@.len() implies (#[trigger] self.layers@[j]).wf()
                && self.layers@[j].cv().bm().wd() == old(self).wd() && self.layers@[j].cv().bm().ht()
                == old(self).ht() by {}
            assert forall|k: int, l: int|
                0 <= k < l < self.palette_seq().len() implies self.palette_seq()[k]
                != self.palette_seq()[l] by {
                assert(old(self).palette_seq()[k] != old(self).palette_seq()[l]);
            }
            State::lemma_stacks_only(*old(self), *self);
        }
        CanvasEffect::Unchanged
    }

    /// Consumes one event and returns the resynchronization the caller
    /// owes the presentation layer. The full per-event semantics are
    /// stated by [`State::execute_post`].
    pub fn execute(&mut self, event: Event) -> (fx: CanvasEffect)
        requires
            old(self).wf(),
        ensures
            final(self).wf(),
            State::execute_post(*old(self), *final(self), event, fx),
    {
        match event {
            Event::Draw(x, y) => self.on_draw(x, y),
            Event::SetTool(t) => {
                self.tool = t;
                self.line_start = None;
                proof {
                    State::lemma_stacks_only(*old(self), *self);
                    State::lemma_palette_frame(*old(self), *self);
                }
                CanvasEffect::Unchanged
            },
            Event::SetMainColor(c) => {
                self.main_color = c;
                proof {
                    assert forall|k: int, l: int|
                        0 <= k < l < self.palette@.len() implies self.palette@[k]
                        != self.palette@[l] by {
                        assert(self.palette@ == old(self).palette_seq());
                        assert(old(self).palette_seq()[k] != old(self).palette_seq()[l]);
                    }
                }
                self.record_palette(c);
                proof {
                    State::lemma_stacks_only(*old(self), *self);
                }
                CanvasEffect::Unchanged
            },
            Event::ResizeCanvas(w, h) => {
                if w == 0 || h == 0 {
                    CanvasEffect::Unchanged
                } else {
                    self.on_resize(w, h)
                }
            },
            Event::ClearCanvas => self.on_clear_canvas(),
            Event::NewCanvas(w, h) => {
                if w == 0 || h == 0 {
                    CanvasEffect::Unchanged
                } else {
                    let c: Color = self.main_color;
                    let mut st = State::new(w, h);
                    let ghost st0 = st;
                    st.main_color = c;
                    *self = st;
                    proof {
                        assert forall|x: int, y: int|
                            self.in_bounds(x, y) implies self.at(x, y)
                            == Color::transparent_spec() by {
                            assert(st0.in_bounds(x, y));
                            assert(st0.at(x, y) == Color::transparent_spec());
                        }
                    }
                    CanvasEffect::New
                }
            },
            Event::StartSelection(rect) => self.on_start_selection(rect),
            Event::ClearSelection => self.on_clear_selection(),
            Event::Cut => self.on_cut(),
            Event::Copy => self.on_copy(),
            Event::Paste(x, y) => {
                match &mut self.free_image {
                    Some(img) => {
                        img.place_at(x as i32, y as i32);
                        proof {
                            State::lemma_stacks_only(*old(self), *self);
                            State::lemma_palette_frame(*old(self), *self);
                        }
                        CanvasEffect::Unchanged
                    },
                    _ => CanvasEffect::Unchanged,
                }
            },
            Event::MoveSelection(dx, dy) => {
                match &mut self.free_image {
                    Some(img) => {
                        img.move_by(dx, dy);
                        proof {
                            State::lemma_stacks_only(*old(self), *self);
                            State::lemma_palette_frame(*old(self), *self);
                        }
                        CanvasEffect::Unchanged
                    },
                    _ => CanvasEffect::Unchanged,
                }
            },
            Event::AddLayer => self.on_add_layer(),
            Event::RemoveLayer(i) => self.on_remove_layer(i),
            Event::SetActiveLayer(i) => {
                if i < self.layers.len() {
                    self.active = i;
                    proof {
                        State::lemma_stacks_only(*old(self), *self);
                        State::lemma_palette_frame(*old(self), *self);
                    }
                    CanvasEffect::Unchanged
                } else {
                    CanvasEffect::Unchanged
                }
            },
            Event::SetLayerVisibility(i, v) => {
                if i < self.layers.len() {
                    let mut layer = self.layers.remove(i);
                    layer.set_visible(v);
                    self.layers.insert(i, layer);
                    proof {
                        assert(self.layers@ =~= old(self).layers@.update(
                            i as int,
                            self.layers@[i as int],
                        ));
                        assert forall|j: int|
                            0 <= j < self.layers@.len() implies (#[trigger] self.layers@[j]).wf()
                            && self.layers@[j].cv().bm().wd() == old(self).wd()
                            && self.layers@[j].cv().bm().ht() == old(self).ht() by {
                            if j != i as int {
                                assert(self.layers@[j] == old(self).layers@[j]);
                            }
                        }
                        State::lemma_stacks_only(*old(self), *self);
                        State::lemma_palette_frame(*old(self), *self);
                    }
                    CanvasEffect::Unchanged
                } else {
                    CanvasEffect::Unchanged
                }
            },
            Event::SetLayerOpacity(i, o) => {
                if i < self.layers.len() {
                    let mut layer = self.layers.remove(i);
                    layer.set_opacity(o);
                    self.layers.insert(i, layer);
                    proof {
                        assert(self.layers@ =~= old(self).layers@.update(
                            i as int,
                            self.layers@[i as int],
                        ));
                        assert forall|j: int|
                            0 <= j < self.layers@.len() implies (#[trigger] self.layers@[j]).wf()
                            && self.layers@[j].cv().bm().wd() == old(self).wd()
                            && self.layers@[j].cv().bm().ht() == old(self).ht() by {
                            if j != i as int {
                                assert(self.layers@[j] == old(self).layers@[j]);
                            }
                        }
                        State::lemma_stacks_only(*old(self), *self);
                        State::lemma_palette_frame(*old(self), *self);
                    }
                    CanvasEffect::Unchanged
                } else {
                    CanvasEffect::Unchanged
                }
            },
            Event::MoveLayer(from, to) => self.on_move_layer(from, to),
            Event::MergeLayerDown(i) => self.on_merge_layer_down(i),
            Event::SetSpritesheet(gx, gy) => {
                if gx == 0 || gy == 0 {
                    CanvasEffect::Unchanged
                } else {
                    self.on_set_spritesheet(gx, gy)
                }
            },
            Event::Undo => self.on_undo(),
            Event::Redo => self.on_redo(),
        }
    }
}

/// Cutting a selection and immediately clearing it restores the canvas:
/// the cut leaves the selected rectangle transparent, and the merge on
/// deselection puts the detached pixels back byte for byte, because
/// compositing onto a fully transparent pixel returns the source
/// unchanged.
pub proof fn lemma_cut_then_clear_restores(pre: State, cut: State, merged: State, rect: Rect)
    requires
        pre.wf(),
        cut.wf(),
        pre.sel_spec() == Some(Selection::Canvas(rect)),
        State::execute_post(pre, cut, Event::Cut, CanvasEffect::Update),
        State::execute_post(cut, merged, Event::ClearSelection, CanvasEffect::Update),
    ensures
        forall|x: int, y: int|
            pre.in_bounds(x, y) && rect.contains_spec(x, y) ==> cut.at(x, y)
                == Color::transparent_spec(),
        forall|x: int, y: int| pre.in_bounds(x, y) ==> merged.at(x, y) == pre.at(x, y),
{
    let img = cut.free_spec()->0;
    assert(cut.free_spec() is Some);
    assert forall|x: int, y: int| pre.in_bounds(x, y) implies merged.at(x, y) == pre.at(x, y) by {
        assert(cut.in_bounds(x, y));
        assert(merged.at(x, y) == cut.merged_at(cut.active_spec(), x, y));
        if rect.contains_spec(x, y) {
            assert(img.px() <= x < img.px() + img.bm().wd());
            assert(img.py() <= y < img.py() + img.bm().ht());
            assert(img.bm().at(x - img.px(), y - img.py()) == pre.at(
                rect.x + (x - rect.x as int),
                rect.y + (y - rect.y as int),
            ));
            assert(cut.at(x, y) == Color::transparent_spec());
            assert(merged.at(x, y) == img.bm().at(x - img.px(), y - img.py()).over_spec(
                cut.at(x, y),
            ));
        } else {
            assert(!(img.px() <= x < img.px() + img.bm().wd() && img.py() <= y < img.py()
                + img.bm().ht()));
            assert(cut.at(x, y) == pre.at(x, y));
        }
    }
}

/// Undo after a pixel-mutating command restores the exact prior pixel
/// buffers of every layer: the command pushes a record that rebuilds
/// the active layer's buffer, leaves all other layers alone, and undo
/// replays exactly that record.
pub proof fn lemma_undo_restores_prior_buffer(
    pre: State,
    drawn: State,
    undone: State,
    e: Event,
)
    requires
        pre.wf(),
        drawn.wf(),
        e.is_drawing_spec(),
        State::execute_post(pre, drawn, e, CanvasEffect::Update),
        State::execute_post(drawn, undone, Event::Undo, CanvasEffect::Update),
    ensures
        undone.layers_seq().len() == pre.layers_seq().len(),
        forall|i: int|
            0 <= i < pre.layers_seq().len() ==> #[trigger] undone.layer_pix(i) == pre.layer_pix(
                i,
            ),
{
    assert(State::history_extended(pre, drawn));
    let r = drawn.undo_seq().last();
    assert(r.layer_spec() == pre.active_spec());
    assert(r.apply_pix(drawn.layer_pix(pre.active_spec()), pre.wd()) == pre.layer_pix(
        pre.active_spec(),
    ));
    assert(undone.layer_pix(r.layer_spec()) == r.apply_pix(
        drawn.layer_pix(r.layer_spec()),
        drawn.wd(),
    ));
    assert(drawn.wd() == pre.wd());
    assert forall|i: int|
        0 <= i < pre.layers_seq().len() implies #[trigger] undone.layer_pix(i) == pre.layer_pix(
        i,
    ) by {
        if i != r.layer_spec() {
            assert(undone.layers_seq()[i] == drawn.layers_seq()[i]);
            assert(drawn.layers_seq()[i] == pre.layers_seq()[i]);
        }
    }
}

/// Undo and redo are a strict inverse pair: redoing right after an
/// undo re-yields the drawn pixel state on every layer.
pub proof fn lemma_redo_reverts_undo(drawn: State, undone: State, redone: State)
    requires
        drawn.wf(),
        undone.wf(),
        State::execute_post(drawn, undone, Event::Undo, CanvasEffect::Update),
        State::execute_post(undone, redone, Event::Redo, CanvasEffect::Update),
    ensures
        redone.layers_seq().len() == drawn.layers_seq().len(),
        forall|i: int|
            0 <= i < drawn.layers_seq().len() ==> #[trigger] redone.layer_pix(i)
                == drawn.layer_pix(i),
{
    let r = drawn.undo_seq().last();
    let r2 = undone.redo_seq().last();
    assert(r2.layer_spec() == r.layer_spec());
    assert(r2.apply_pix(undone.layer_pix(r.layer_spec()), drawn.wd()) == drawn.layer_pix(
        r.layer_spec(),
    ));
    assert(redone.layer_pix(r2.layer_spec()) == r2.apply_pix(
        undone.layer_pix(r2.layer_spec()),
        undone.wd(),
    ));
    assert(undone.wd() == drawn.wd());
    assert forall|i: int|
        0 <= i < drawn.layers_seq().len() implies #[trigger] redone.layer_pix(i)
        == drawn.layer_pix(i) by {
        if i != r.layer_spec() {
            assert(redone.layers_seq()[i] == undone.layers_seq()[i]);
            assert(undone.layers_seq()[i] == drawn.layers_seq()[i]);
        }
    }
}

} // verus!
