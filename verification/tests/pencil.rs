use arborio::config::PencilBehavior;
use arborio::layer::Layer;
use arborio::pencil::{brush_tile, PencilEdit, PencilTool};
use arborio::units::{RoomPoint, TilePoint};
use arborio::uuid::IdCounter;

fn rp(x: i32, y: i32) -> RoomPoint {
    RoomPoint::new(x, y)
}

#[test]
fn brush_falls_back_to_other_tile_then_zero() {
    assert_eq!(brush_tile('a', Some('b')), 'a');
    assert_eq!(brush_tile('\0', Some('b')), 'b');
    assert_eq!(brush_tile('\0', None), '0');
}

#[test]
fn first_tile_stroke_paints_under_pointer_then_follows_steps() {
    let mut ids = IdCounter::new();
    let mut pencil = PencilTool::new();
    pencil.draw_start(Layer::FgTiles, PencilBehavior::Line, rp(13, 20), true, &mut ids);
    assert_eq!(pencil.draw_phase, 1);
    assert!(pencil.reference_point.is_none());
    let out = pencil.draw(Layer::FgTiles, PencilBehavior::Line, rp(13, 20), true, 'x', -1, &vec![], &vec![]);
    assert_eq!(out, vec![PencilEdit::TileUpdate(true, 1, 2, 'x')]);
    let r = pencil.reference_point.unwrap();
    assert_eq!((r.x, r.y), (8, 16));
    let steps = vec![TilePoint::new(2, 2), TilePoint::new(3, 3)];
    let out = pencil.draw(Layer::FgTiles, PencilBehavior::Line, rp(30, 30), true, 'x', -1, &steps, &vec![]);
    assert_eq!(out, vec![PencilEdit::TileUpdate(true, 2, 2, 'x'), PencilEdit::TileUpdate(true, 3, 3, 'x')]);
    let r = pencil.reference_point.unwrap();
    assert_eq!((r.x, r.y), (24, 24));
    let out = pencil.draw_finish(Layer::FgTiles, PencilBehavior::Line, rp(30, 30), true);
    assert!(out.is_empty());
    assert!(pencil.reference_point.is_none());
}

#[test]
fn object_tiles_are_set_under_pointer() {
    let mut pencil = PencilTool::new();
    let out = pencil.draw(Layer::ObjectTiles, PencilBehavior::Line, rp(-9, 17), false, '0', 5, &vec![], &vec![]);
    assert_eq!(out, vec![PencilEdit::ObjectTileUpdate(-1, 2, 5)]);
    assert!(pencil.reference_point.is_none());
}

#[test]
fn entity_line_skips_repeated_points() {
    let mut pencil = PencilTool::new();
    let out = pencil.draw(Layer::Entities, PencilBehavior::Line, rp(3, 3), true, '0', 0, &vec![], &vec![]);
    assert_eq!(out, vec![PencilEdit::EntityAt(0, 0)]);
    let steps = vec![rp(4, 4), rp(9, 9), rp(12, 12), rp(17, 17)];
    let out = pencil.draw(Layer::Entities, PencilBehavior::Line, rp(17, 17), true, '0', 0, &vec![], &steps);
    assert_eq!(out, vec![PencilEdit::EntityAt(0, 0), PencilEdit::EntityAt(8, 8), PencilEdit::EntityAt(16, 16)]);
    let r = pencil.reference_point.unwrap();
    assert_eq!((r.x, r.y), (16, 16));
}

#[test]
fn trigger_stroke_spans_from_start_to_end() {
    let mut ids = IdCounter::new();
    let mut pencil = PencilTool::new();
    pencil.draw_start(Layer::Triggers, PencilBehavior::Line, rp(10, 10), true, &mut ids);
    let r = pencil.reference_point.unwrap();
    assert_eq!((r.x, r.y), (8, 8));
    let out = pencil.draw(Layer::Triggers, PencilBehavior::Line, rp(40, 40), true, '0', 0, &vec![], &vec![]);
    assert!(out.is_empty());
    let out = pencil.draw_finish(Layer::Triggers, PencilBehavior::Line, rp(41, 33), true);
    assert_eq!(out, vec![PencilEdit::EntitySpan(8, 8, 40, 32, true)]);
    assert!(pencil.reference_point.is_none());
}

#[test]
fn decal_is_placed_when_stroke_ends() {
    let mut pencil = PencilTool::new();
    let out = pencil.draw_finish(Layer::BgDecals, PencilBehavior::Line, rp(5, 6), false);
    assert_eq!(out, vec![PencilEdit::DecalAt(5, 6, false)]);
}
