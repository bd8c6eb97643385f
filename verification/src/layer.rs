//! A canvas with a visibility flag and an opacity, stacked for
//! compositing.

use vstd::prelude::*;
use crate::canvas::Canvas;

verus! {

/// One element of the layer stack. Opacity is a compositing multiplier
/// applied by the renderer, not by this core.
#[derive(Debug)]
pub struct Layer {
    canvas: Canvas,
    visible: bool,
    opacity: u8,
}

impl Layer {
    pub closed spec fn cv(self) -> Canvas {
        self.canvas
    }

    pub closed spec fn is_visible(self) -> bool {
        self.visible
    }

    pub closed spec fn op(self) -> u8 {
        self.opacity
    }

    pub open spec fn wf(self) -> bool {
        self.cv().wf()
    }

    /// A fresh layer: visible, fully opaque.
    pub fn new(canvas: Canvas) -> (l: Layer)
        requires
            canvas.wf(),
        ensures
            l.wf(),
            l.cv() == canvas,
            l.is_visible(),
            l.op() == 255,
    {
        Layer { canvas, visible: true, opacity: 255 }
    }

    pub fn canvas(&self) -> (cv: &Canvas)
        ensures
            *cv == self.cv(),
    {
        &self.canvas
    }

    pub fn canvas_mut(&mut self) -> (cv: &mut Canvas)
        ensures
            *cv == old(self).cv(),
            final(self).cv() == *final(cv),
            final(self).is_visible() == old(self).is_visible(),
            final(self).op() == old(self).op(),
    {
        &mut self.canvas
    }

    pub fn visible(&self) -> (v: bool)
        ensures
            v == self.is_visible(),
    {
        self.visible
    }

    pub fn opacity(&self) -> (o: u8)
        ensures
            o == self.op(),
    {
        self.opacity
    }

    pub fn set_visible(&mut self, visible: bool)
        ensures
            final(self).cv() == old(self).cv(),
            final(self).is_visible() == visible,
            final(self).op() == old(self).op(),
    {
        self.visible = visible;
    }

    pub fn set_opacity(&mut self, opacity: u8)
        ensures
            final(self).cv() == old(self).cv(),
            final(self).is_visible() == old(self).is_visible(),
            final(self).op() == opacity,
    {
        self.opacity = opacity;
    }
}

} // verus!
