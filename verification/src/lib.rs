//! Core of a pixel-art editor: a layered raster canvas driven by typed
//! events, with selections, a movable free image, undo/redo history and
//! the input-side debounce rules.
//!
//! The library owns the authoritative data model (bitmaps, layers,
//! selection, palette, history) and the operation semantics; rendering,
//! window chrome and file I/O stay with the caller, which talks to the
//! core through the [`Event`](event::Event) vocabulary and reads back a
//! [`CanvasEffect`](event::CanvasEffect) resync hint after each command.

pub mod bitmap;
pub mod bucket;
pub mod canvas;
pub mod event;
pub mod free_image;
pub mod history;
pub mod keyboard;
pub mod layer;
pub mod line;
pub mod primitives;
pub mod state;
pub mod timer;
