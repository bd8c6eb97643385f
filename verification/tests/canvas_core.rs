use tarsila::bitmap::Bitmap;
use tarsila::event::{CanvasEffect, Event, Tool};
use tarsila::primitives::Color;
use tarsila::primitives::Rect;
use tarsila::state::{Selection, State};

fn red() -> Color {
    Color::new(255, 0, 0, 255)
}

fn blue() -> Color {
    Color::new(0, 0, 255, 255)
}

fn clear() -> Color {
    Color::transparent()
}

fn active_pixels(st: &State) -> Vec<Color> {
    let cv = st.canvas().inner();
    let (w, h) = (cv.width(), cv.height());
    let mut out = Vec::new();
    for y in 0..h {
        for x in 0..w {
            out.push(cv.pixel(x, y));
        }
    }
    out
}

#[test]
fn bitmap_size_invariant_after_new_and_resize() {
    let bm = Bitmap::new(4, 3, clear());
    assert_eq!(bm.pixel_count(), 12);
    let grown = bm.resized(7, 5);
    assert_eq!(grown.pixel_count(), 35);
    let shrunk = bm.resized(2, 2);
    assert_eq!(shrunk.pixel_count(), 4);
}

#[test]
fn state_size_invariant_after_events_and_load() {
    let mut st = State::new(4, 4);
    assert_eq!(st.canvas().inner().pixel_count(), 16);
    st.execute(Event::ResizeCanvas(6, 2));
    assert_eq!(st.canvas().inner().pixel_count(), 12);
    st.execute(Event::NewCanvas(3, 3));
    assert_eq!(st.canvas().inner().pixel_count(), 9);
    st.load(Bitmap::new(5, 2, red()));
    assert_eq!(st.canvas().inner().pixel_count(), 10);
    assert_eq!(st.canvas().inner().pixel(0, 0), red());
}

#[test]
fn undo_restores_prior_buffer_after_brush() {
    let mut st = State::new(4, 4);
    st.execute(Event::SetMainColor(red()));
    let before = active_pixels(&st);
    let fx = st.execute(Event::Draw(1, 1));
    assert_eq!(fx, CanvasEffect::Update);
    assert_ne!(active_pixels(&st), before);
    let fx = st.execute(Event::Undo);
    assert_eq!(fx, CanvasEffect::Update);
    assert_eq!(active_pixels(&st), before);
}

#[test]
fn undo_restores_prior_buffer_after_bucket_and_clear() {
    let mut st = State::new(4, 4);
    st.execute(Event::SetMainColor(red()));
    st.execute(Event::Draw(0, 0));
    let before = active_pixels(&st);

    st.execute(Event::SetTool(Tool::Bucket));
    st.execute(Event::SetMainColor(blue()));
    st.execute(Event::Draw(2, 2));
    assert_ne!(active_pixels(&st), before);
    st.execute(Event::Undo);
    assert_eq!(active_pixels(&st), before);

    st.execute(Event::ClearCanvas);
    assert_ne!(active_pixels(&st), before);
    st.execute(Event::Undo);
    assert_eq!(active_pixels(&st), before);
}

#[test]
fn redo_after_undo_is_strict_inverse() {
    let mut st = State::new(4, 4);
    st.execute(Event::SetMainColor(red()));
    st.execute(Event::Draw(1, 1));
    let drawn = active_pixels(&st);
    st.execute(Event::Undo);
    let undone = active_pixels(&st);
    let fx = st.execute(Event::Redo);
    assert_eq!(fx, CanvasEffect::Update);
    assert_eq!(active_pixels(&st), drawn);
    st.execute(Event::Undo);
    assert_eq!(active_pixels(&st), undone);
}

#[test]
fn undo_with_empty_history_is_noop() {
    let mut st = State::new(2, 2);
    assert!(!st.can_undo());
    assert_eq!(st.execute(Event::Undo), CanvasEffect::Unchanged);
    assert_eq!(st.execute(Event::Redo), CanvasEffect::Unchanged);
}

#[test]
fn bucket_fill_on_uniform_canvas_fills_everything() {
    let mut st = State::new(5, 3);
    st.execute(Event::SetTool(Tool::Bucket));
    st.execute(Event::SetMainColor(red()));
    let fx = st.execute(Event::Draw(4, 2));
    assert_eq!(fx, CanvasEffect::Update);
    for y in 0..3 {
        for x in 0..5 {
            assert_eq!(st.canvas().inner().pixel(x, y), red());
        }
    }
}

#[test]
fn bucket_fill_stops_at_region_border() {
    let mut st = State::new(4, 1);
    st.execute(Event::SetMainColor(red()));
    st.execute(Event::Draw(2, 0));
    // row now: clear, clear, red, clear
    st.execute(Event::SetTool(Tool::Bucket));
    st.execute(Event::SetMainColor(blue()));
    st.execute(Event::Draw(0, 0));
    assert_eq!(st.canvas().inner().pixel(0, 0), blue());
    assert_eq!(st.canvas().inner().pixel(1, 0), blue());
    assert_eq!(st.canvas().inner().pixel(2, 0), red());
    assert_eq!(st.canvas().inner().pixel(3, 0), clear());
}

#[test]
fn cut_leaves_transparent_then_clear_selection_restores() {
    let mut st = State::new(4, 4);
    st.execute(Event::SetMainColor(red()));
    st.execute(Event::Draw(0, 0));
    st.execute(Event::SetMainColor(blue()));
    st.execute(Event::Draw(1, 1));
    let original = active_pixels(&st);

    st.execute(Event::StartSelection(Rect::new(0, 0, 2, 2)));
    let fx = st.execute(Event::Cut);
    assert_eq!(fx, CanvasEffect::Update);
    for y in 0..2 {
        for x in 0..2 {
            assert_eq!(st.canvas().inner().pixel(x, y), clear());
        }
    }
    assert!(st.free_image().is_some());

    let fx = st.execute(Event::ClearSelection);
    assert_eq!(fx, CanvasEffect::Update);
    assert!(st.free_image().is_none());
    assert!(st.selection().is_none());
    assert_eq!(active_pixels(&st), original);
}

#[test]
fn draw_then_visible_pixel_matches_example() {
    let mut st = State::new(4, 4);
    st.execute(Event::SetMainColor(Color::new(255, 0, 0, 255)));
    st.execute(Event::Draw(1, 1));
    assert_eq!(st.visible_pixel(1, 1), Color::new(255, 0, 0, 255));
    assert_eq!(st.visible_pixel(0, 0), Color::new(0, 0, 0, 0));
}

#[test]
fn copy_then_paste_moves_placement_not_content() {
    let mut st = State::new(4, 4);
    st.execute(Event::SetMainColor(red()));
    st.execute(Event::Draw(0, 0));
    st.execute(Event::StartSelection(Rect::new(0, 0, 2, 2)));
    st.execute(Event::Copy);
    let img = st.free_image().as_ref().expect("copy detaches an image");
    assert_eq!(img.x(), 0);
    assert_eq!(img.y(), 0);
    assert_eq!(img.bitmap().pixel(0, 0), red());

    let fx = st.execute(Event::Paste(2, 2));
    assert_eq!(fx, CanvasEffect::Unchanged);
    let img = st.free_image().as_ref().expect("paste keeps the image");
    assert_eq!(img.x(), 2);
    assert_eq!(img.y(), 2);
    assert_eq!(img.bitmap().pixel(0, 0), red());
    // the canvas itself is untouched by the reposition
    assert_eq!(st.canvas().inner().pixel(0, 0), red());
}

#[test]
fn paste_without_prior_copy_is_noop() {
    let mut st = State::new(4, 4);
    assert_eq!(st.execute(Event::Paste(1, 1)), CanvasEffect::Unchanged);
    assert!(st.free_image().is_none());
}

#[test]
fn resize_truncates_and_pads_with_transparent() {
    let mut st = State::new(4, 4);
    st.execute(Event::SetMainColor(red()));
    st.execute(Event::Draw(0, 0));
    st.execute(Event::SetMainColor(blue()));
    st.execute(Event::Draw(3, 3));

    st.execute(Event::ResizeCanvas(2, 2));
    assert_eq!(st.canvas().inner().width(), 2);
    assert_eq!(st.canvas().inner().pixel(0, 0), red());

    st.execute(Event::ResizeCanvas(4, 4));
    assert_eq!(st.canvas().inner().pixel(0, 0), red());
    for y in 0..4u16 {
        for x in 0..4u16 {
            if !(x == 0 && y == 0) {
                assert_eq!(st.canvas().inner().pixel(x, y), clear());
            }
        }
    }
}

#[test]
fn resize_to_zero_is_rejected() {
    let mut st = State::new(4, 4);
    assert_eq!(st.execute(Event::ResizeCanvas(0, 5)), CanvasEffect::Unchanged);
    assert_eq!(st.canvas().inner().width(), 4);
    assert_eq!(st.execute(Event::NewCanvas(5, 0)), CanvasEffect::Unchanged);
    assert_eq!(st.canvas().inner().width(), 4);
}

#[test]
fn out_of_bounds_draw_is_ignored() {
    let mut st = State::new(2, 2);
    st.execute(Event::SetMainColor(red()));
    assert_eq!(st.execute(Event::Draw(5, 0)), CanvasEffect::Unchanged);
    assert_eq!(st.canvas().inner().pixel(0, 0), clear());
}

#[test]
fn zero_area_selection_leaves_idle() {
    let mut st = State::new(4, 4);
    st.execute(Event::StartSelection(Rect::new(1, 1, 0, 3)));
    assert!(st.selection().is_none());
    // a selection fully outside the canvas is degenerate too
    st.execute(Event::StartSelection(Rect::new(9, 9, 2, 2)));
    assert!(st.selection().is_none());
    // cut with no active selection is a no-op
    assert_eq!(st.execute(Event::Cut), CanvasEffect::Unchanged);
}

#[test]
fn selection_is_clipped_to_canvas() {
    let mut st = State::new(4, 4);
    st.execute(Event::StartSelection(Rect::new(2, 2, 5, 5)));
    assert_eq!(
        st.selection(),
        Some(Selection::Canvas(Rect::new(2, 2, 2, 2)))
    );
}

#[test]
fn move_selection_translates_free_image() {
    let mut st = State::new(4, 4);
    st.execute(Event::StartSelection(Rect::new(1, 1, 2, 2)));
    st.execute(Event::Copy);
    st.execute(Event::MoveSelection(3, -2));
    let img = st.free_image().as_ref().unwrap();
    assert_eq!(img.x(), 4);
    assert_eq!(img.y(), -1);
}

#[test]
fn eraser_writes_transparent() {
    let mut st = State::new(3, 3);
    st.execute(Event::SetMainColor(red()));
    st.execute(Event::Draw(1, 1));
    st.execute(Event::SetTool(Tool::Eraser));
    st.execute(Event::Draw(1, 1));
    assert_eq!(st.canvas().inner().pixel(1, 1), clear());
}

#[test]
fn eyedropper_picks_visible_color() {
    let mut st = State::new(3, 3);
    st.execute(Event::SetMainColor(red()));
    st.execute(Event::Draw(2, 0));
    st.execute(Event::SetMainColor(blue()));
    st.execute(Event::SetTool(Tool::Eyedropper));
    let fx = st.execute(Event::Draw(2, 0));
    assert_eq!(fx, CanvasEffect::Unchanged);
    assert_eq!(st.main_color(), red());
}

#[test]
fn line_tool_draws_between_press_and_release() {
    let mut st = State::new(5, 5);
    st.execute(Event::SetMainColor(red()));
    st.execute(Event::SetTool(Tool::Line));
    assert_eq!(st.execute(Event::Draw(0, 0)), CanvasEffect::Unchanged);
    let fx = st.execute(Event::Draw(4, 4));
    assert_eq!(fx, CanvasEffect::Update);
    for i in 0..5u16 {
        assert_eq!(st.canvas().inner().pixel(i, i), red());
    }
    assert_eq!(st.canvas().inner().pixel(0, 1), clear());
    // a line commit is undoable
    st.execute(Event::Undo);
    assert_eq!(st.canvas().inner().pixel(2, 2), clear());
}

#[test]
fn palette_accumulates_unique_colors_in_first_use_order() {
    let mut st = State::new(3, 3);
    st.execute(Event::SetMainColor(red()));
    st.execute(Event::SetMainColor(blue()));
    st.execute(Event::SetMainColor(red()));
    let palette = st.palette();
    assert_eq!(palette.len(), 2);
    assert_eq!(palette[0], red());
    assert_eq!(palette[1], blue());
}

#[test]
fn layer_stack_operations() {
    let mut st = State::new(3, 3);
    assert_eq!(st.execute(Event::AddLayer), CanvasEffect::Layer);
    assert_eq!(st.num_layers(), 2);

    st.execute(Event::SetActiveLayer(1));
    assert_eq!(st.active_layer(), 1);
    assert_eq!(st.execute(Event::SetActiveLayer(7)), CanvasEffect::Unchanged);
    assert_eq!(st.active_layer(), 1);

    st.execute(Event::SetLayerVisibility(0, false));
    assert!(!st.layer(0).visible());
    st.execute(Event::SetLayerOpacity(0, 128));
    assert_eq!(st.layer(0).opacity(), 128);

    // the last remaining layer can never be removed
    st.execute(Event::RemoveLayer(1));
    assert_eq!(st.num_layers(), 1);
    assert_eq!(st.execute(Event::RemoveLayer(0)), CanvasEffect::Unchanged);
    assert_eq!(st.num_layers(), 1);
}

#[test]
fn merge_layer_down_composites_upper_over_lower() {
    let mut st = State::new(3, 3);
    st.execute(Event::SetMainColor(red()));
    st.execute(Event::Draw(0, 0));
    st.execute(Event::AddLayer);
    st.execute(Event::SetActiveLayer(1));
    st.execute(Event::SetMainColor(blue()));
    st.execute(Event::Draw(0, 0));
    st.execute(Event::Draw(1, 1));

    let fx = st.execute(Event::MergeLayerDown(1));
    assert_eq!(fx, CanvasEffect::Layer);
    assert_eq!(st.num_layers(), 1);
    // opaque blue covers red; blue over nothing stays blue
    assert_eq!(st.canvas().inner().pixel(0, 0), blue());
    assert_eq!(st.canvas().inner().pixel(1, 1), blue());
}

#[test]
fn visible_pixel_composites_with_integer_over() {
    let mut st = State::new(2, 2);
    st.execute(Event::SetMainColor(Color::new(0, 0, 255, 255)));
    st.execute(Event::Draw(0, 0));
    st.execute(Event::AddLayer);
    st.execute(Event::SetActiveLayer(1));
    st.execute(Event::SetMainColor(Color::new(255, 0, 0, 128)));
    st.execute(Event::Draw(0, 0));
    // t = 255 * (255 - 128) / 255 = 127; out_a = 255
    // r = (255 * 128 + 0 * 127) / 255 = 128; b = (0 + 255 * 127) / 255 = 127
    assert_eq!(st.visible_pixel(0, 0), Color::new(128, 0, 127, 255));
    // hiding the top layer exposes the bottom one
    st.execute(Event::SetLayerVisibility(1, false));
    assert_eq!(st.visible_pixel(0, 0), Color::new(0, 0, 255, 255));
}

#[test]
fn spritesheet_grid_falls_back_to_single_cell() {
    let mut st = State::new(6, 4);
    st.execute(Event::SetSpritesheet(3, 2));
    assert_eq!(st.spritesheet(), (3, 2));
    assert_eq!(st.sprite_images().len(), 6);
    // a grid that does not divide the canvas acts as one cell
    st.execute(Event::SetSpritesheet(4, 2));
    assert_eq!(st.spritesheet(), (1, 1));
    assert_eq!(st.sprite_images().len(), 1);
    // zero counts are rejected outright
    st.execute(Event::SetSpritesheet(0, 2));
    assert_eq!(st.spritesheet(), (1, 1));
}

#[test]
fn new_canvas_discards_history_and_selection() {
    let mut st = State::new(4, 4);
    st.execute(Event::SetMainColor(red()));
    st.execute(Event::Draw(1, 1));
    st.execute(Event::StartSelection(Rect::new(0, 0, 2, 2)));
    assert!(st.can_undo());
    st.execute(Event::NewCanvas(4, 4));
    assert!(!st.can_undo());
    assert!(st.selection().is_none());
    assert_eq!(st.canvas().inner().pixel(1, 1), clear());
    // the main color survives the reset
    assert_eq!(st.main_color(), red());
}

#[test]
fn is_on_selection_tracks_geometry() {
    let mut st = State::new(4, 4);
    st.execute(Event::StartSelection(Rect::new(1, 1, 2, 2)));
    assert!(st.is_on_selection(1, 1));
    assert!(st.is_on_selection(2, 2));
    assert!(!st.is_on_selection(3, 3));
    st.execute(Event::Copy);
    st.execute(Event::Paste(2, 2));
    assert!(st.is_on_selection(3, 3));
    assert!(!st.is_on_selection(1, 1));
}
