use tarsila::bitmap::Bitmap;
use tarsila::bucket::flood_fill;
use tarsila::canvas::Canvas;
use tarsila::event::Event;
use tarsila::free_image::{sat_add, FreeImage};
use tarsila::line::draw_line;
use tarsila::primitives::{Color, Rect};
use tarsila::state::State;

fn red() -> Color {
    Color::new(255, 0, 0, 255)
}

fn clear() -> Color {
    Color::transparent()
}

#[test]
fn over_blends_with_integer_arithmetic() {
    let src = Color::new(255, 0, 0, 128);
    let dst = Color::new(0, 0, 255, 255);
    // t = 255 * (255 - 128) / 255 = 127; out_a = 255
    // r = 255 * 128 / 255 = 128; b = 255 * 127 / 255 = 127
    assert_eq!(src.over(dst), Color::new(128, 0, 127, 255));
    // compositing onto full transparency returns the source byte for byte
    let odd = Color::new(5, 5, 5, 0);
    assert_eq!(odd.over(clear()), odd);
    // a transparent source leaves the destination alone
    assert_eq!(clear().over(dst), dst);
}

#[test]
fn set_pixel_changes_only_its_target() {
    let mut bm = Bitmap::new(3, 3, clear());
    bm.set_pixel(1, 2, red());
    for y in 0..3 {
        for x in 0..3 {
            let expected = if (x, y) == (1, 2) { red() } else { clear() };
            assert_eq!(bm.pixel(x, y), expected);
        }
    }
}

#[test]
fn extract_copies_the_rectangle() {
    let mut bm = Bitmap::new(4, 4, clear());
    bm.set_pixel(2, 1, red());
    let cell = bm.extract(Rect::new(1, 1, 2, 2));
    assert_eq!(cell.width(), 2);
    assert_eq!(cell.height(), 2);
    assert_eq!(cell.pixel(1, 0), red());
    assert_eq!(cell.pixel(0, 0), clear());
}

#[test]
fn clear_rect_wipes_only_the_rectangle() {
    let mut bm = Bitmap::new(3, 3, red());
    bm.clear_rect(Rect::new(0, 0, 2, 2));
    assert_eq!(bm.pixel(0, 0), clear());
    assert_eq!(bm.pixel(1, 1), clear());
    assert_eq!(bm.pixel(2, 2), red());
    assert_eq!(bm.pixel(2, 0), red());
}

#[test]
fn merge_blend_drops_out_of_bounds_pixels() {
    let mut dst = Bitmap::new(3, 3, clear());
    let src = Bitmap::new(2, 2, red());
    dst.merge_blend(&src, 2, 2);
    assert_eq!(dst.pixel(2, 2), red());
    assert_eq!(dst.pixel(1, 1), clear());
    // placement fully off the canvas changes nothing
    let mut dst2 = Bitmap::new(3, 3, clear());
    dst2.merge_blend(&src, -5, -5);
    for y in 0..3 {
        for x in 0..3 {
            assert_eq!(dst2.pixel(x, y), clear());
        }
    }
}

#[test]
fn flood_fill_undo_record_restores_the_buffer() {
    let mut bm = Bitmap::new(3, 3, clear());
    bm.set_pixel(1, 1, red());
    let undo = flood_fill(&mut bm, 0, 0, red());
    assert_eq!(bm.pixel(0, 0), red());
    assert_eq!(bm.pixel(2, 2), red());
    // replay the record by hand: it holds the prior colors
    for w in undo.iter() {
        bm.set_pixel(w.x, w.y, w.color);
    }
    assert_eq!(bm.pixel(0, 0), clear());
    assert_eq!(bm.pixel(1, 1), red());
}

#[test]
fn flood_fill_with_same_color_is_noop() {
    let mut bm = Bitmap::new(3, 3, red());
    let undo = flood_fill(&mut bm, 1, 1, red());
    assert!(undo.is_empty());
    assert_eq!(bm.pixel(0, 0), red());
}

#[test]
fn draw_line_covers_exact_steps() {
    let mut bm = Bitmap::new(5, 3, clear());
    let undo = draw_line(&mut bm, 0, 0, 4, 2, red());
    // five steps along the longer axis, one pixel each
    assert_eq!(undo.len(), 5);
    assert_eq!(bm.pixel(0, 0), red());
    assert_eq!(bm.pixel(2, 1), red());
    assert_eq!(bm.pixel(4, 2), red());
    assert_eq!(bm.pixel(0, 2), clear());
}

#[test]
fn free_image_positions_saturate() {
    let bm = Bitmap::new(2, 2, red());
    let mut img = FreeImage::new(bm, 0, 0);
    img.move_by(i32::MAX, i32::MIN);
    img.move_by(10, -10);
    assert_eq!(img.x(), i32::MAX);
    assert_eq!(img.y(), i32::MIN);
    assert_eq!(sat_add(i32::MAX, 1), i32::MAX);
    assert_eq!(sat_add(i32::MIN, -1), i32::MIN);
    assert_eq!(sat_add(3, 4), 7);
}

#[test]
fn sprite_cells_partition_the_canvas() {
    let mut bm = Bitmap::new(4, 2, clear());
    bm.set_pixel(3, 1, red());
    let mut cv = Canvas::new(bm);
    cv.set_grid(2, 1);
    assert_eq!(cv.spritesheet(), (2, 1));
    let cells = cv.sprite_images();
    assert_eq!(cells.len(), 2);
    assert_eq!(cells[1].pixel(1, 1), red());
    assert_eq!(cells[0].pixel(1, 1), clear());
}

#[test]
fn move_layer_reorders_and_tracks_active() {
    let mut st = State::new(2, 2);
    st.execute(Event::AddLayer);
    st.execute(Event::AddLayer);
    st.execute(Event::SetMainColor(red()));
    st.execute(Event::SetActiveLayer(2));
    st.execute(Event::Draw(0, 0));

    st.execute(Event::MoveLayer(2, 0));
    // the active index follows the moved layer
    assert_eq!(st.active_layer(), 0);
    assert_eq!(st.canvas().inner().pixel(0, 0), red());
    // out-of-range moves are rejected
    assert_eq!(
        st.execute(Event::MoveLayer(0, 9)),
        tarsila::event::CanvasEffect::Unchanged
    );
}
