//! The typed vocabulary between input producers and the canvas core.

use vstd::prelude::*;
use crate::primitives::{Color, Direction, Rect};

verus! {

/// The drawing tool dispatched by a `Draw` event.
#[derive(Clone, Copy, PartialEq, Eq, Structural, Debug)]
pub enum Tool {
    Brush,
    Eraser,
    Eyedropper,
    Bucket,
    Line,
}

/// The minimal resynchronization a command requires of the presentation
/// layer: nothing, an in-place refresh of the active layer's pixels, a
/// full regeneration after a dimension change, or a rebuild of the
/// layer list.
#[derive(Clone, Copy, PartialEq, Eq, Structural, Debug)]
pub enum CanvasEffect {
    Unchanged,
    Update,
    New,
    Layer,
}

/// One command for [`State::execute`](crate::state::State::execute).
///
/// File I/O stays with the caller: saving reads the pixel buffers back
/// through the query surface, and opening a file goes through
/// [`State::load`](crate::state::State::load) with the decoded bitmap.
#[derive(Clone, Copy, PartialEq, Eq, Structural, Debug)]
pub enum Event {
    Draw(u16, u16),
    SetTool(Tool),
    SetMainColor(Color),
    ResizeCanvas(u16, u16),
    ClearCanvas,
    NewCanvas(u16, u16),
    StartSelection(Rect),
    ClearSelection,
    Cut,
    Copy,
    Paste(u16, u16),
    MoveSelection(i32, i32),
    AddLayer,
    RemoveLayer(usize),
    SetActiveLayer(usize),
    SetLayerVisibility(usize, bool),
    SetLayerOpacity(usize, u8),
    MoveLayer(usize, usize),
    MergeLayerDown(usize),
    SetSpritesheet(u16, u16),
    Undo,
    Redo,
}

impl Event {
    /// Whether the event writes pixels through the selected tool; such
    /// events are suppressed while the pointer interacts with panels.
    pub open spec fn is_drawing_spec(self) -> bool {
        self matches Event::Draw(_, _) || self matches Event::ClearCanvas
    }

    pub fn is_drawing_event(&self) -> (b: bool)
        ensures
            b == self.is_drawing_spec(),
    {
        match self {
            Event::Draw(_, _) => true,
            Event::ClearCanvas => true,
            _ => false,
        }
    }
}

/// View-level requests that never reach the canvas core; they move the
/// camera or gate event delivery.
#[derive(Clone, Copy, PartialEq, Eq, Structural, Debug)]
pub enum UiEvent {
    ZoomIn,
    ZoomOut,
    MoveCamera(Direction),
    MouseOverGui,
    GuiInteraction,
    Paste,
}

/// Everything an input producer can emit: a core event or a view-level
/// request.
#[derive(Clone, Copy, PartialEq, Eq, Structural, Debug)]
pub enum Effect {
    Event(Event),
    UiEvent(UiEvent),
}

} // verus!
