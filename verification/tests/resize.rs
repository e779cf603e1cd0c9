use arborio::resize::{resize_selection, ResizeEdit};
use arborio::room::{MapDecal, MapEntity, Room};
use arborio::rooms::ResizeSide;
use arborio::selection::AppSelection;
use arborio::tile_grid::TileGrid;
use arborio::units::{MapPointStrict, MapRectStrict, MapSizeStrict, RoomPoint, RoomRect, RoomSize, RoomVector};

fn room() -> Room {
    Room {
        bounds: MapRectStrict::new(MapPointStrict::new(0, 0), MapSizeStrict::new(64, 64)),
        solids: TileGrid { tiles: vec!['0'; 64], stride: 8 },
        bg: TileGrid { tiles: vec!['0'; 64], stride: 8 },
        object_tiles: TileGrid { tiles: vec![-1; 64], stride: 8 },
        entities: vec![MapEntity { id: 5, name: "spring".to_string(), x: 10, y: 20, width: 16, height: 8, nodes: vec![], attributes: vec![] }],
        triggers: vec![],
        fg_decals: vec![MapDecal { id: 3, x: 8, y: 8, scale_x: 0x3f80_0000, scale_y: 0x3f80_0000, texture: "decals/x".to_string() }],
        bg_decals: vec![],
    }
}

#[test]
fn left_side_drag_moves_origin_and_grows_width() {
    let r = room();
    let out = resize_selection(&r, &vec![AppSelection::EntityBody(5, false)], &vec![None], &vec![(8, 8)],
        Some(ResizeSide::Left), RoomVector::new(-4, 0));
    assert_eq!(out, vec![ResizeEdit::Entity { id: 5, trigger: false, x: 6, y: 20, width: 20, height: 8 }]);
}

#[test]
fn no_side_drags_top_left_corner_and_keeps_minimum_size() {
    let r = room();
    let out = resize_selection(&r, &vec![AppSelection::EntityBody(5, false)], &vec![None], &vec![(8, 8)],
        None, RoomVector::new(4, 4));
    assert_eq!(out, vec![ResizeEdit::Entity { id: 5, trigger: false, x: 14, y: 24, width: 12, height: 8 }]);
}

#[test]
fn decal_and_entity_resize_from_drag_start() {
    let r = room();
    let start = RoomRect::new(RoomPoint::new(0, 0), RoomSize::new(16, 16));
    let out = resize_selection(&r,
        &vec![AppSelection::Decal(3, true), AppSelection::EntityBody(5, false)],
        &vec![Some(start), Some(start)],
        &vec![(0, 0), (8, 8)],
        Some(ResizeSide::BottomRight), RoomVector::new(8, -12));
    assert_eq!(out, vec![
        ResizeEdit::Decal { fg: true, id: 3, x: 0, y: 0, width: 24, height: 4 },
        ResizeEdit::Entity { id: 5, trigger: false, x: 0, y: 0, width: 24, height: 8 },
    ]);
}

use arborio::resize::selection_resize_side;

#[test]
fn grabbed_side_is_narrowed_by_the_selection() {
    let sel = vec![AppSelection::EntityBody(5, false), AppSelection::Decal(3, true)];
    let rects = vec![vec![rect_at(10, 20, 16, 8)], vec![rect_at(100, 100, 8, 8)]];
    let p = RoomPoint::new(11, 21);
    assert_eq!(selection_resize_side(&sel, &rects, &vec![(true, true), (true, true)], p), ResizeSide::TopLeft);
    assert_eq!(selection_resize_side(&sel, &rects, &vec![(false, true), (true, true)], p), ResizeSide::Top);
    assert_eq!(selection_resize_side(&sel, &rects, &vec![(false, false), (true, true)], p), ResizeSide::NoSide);
    let interior = RoomPoint::new(15, 23);
    assert_eq!(selection_resize_side(&sel, &rects, &vec![(true, true), (true, true)], interior), ResizeSide::NoSide);
    let tiles = vec![AppSelection::Decal(3, true), AppSelection::FgFloat];
    let rects2 = vec![vec![rect_at(100, 100, 8, 8)], vec![]];
    assert_eq!(selection_resize_side(&tiles, &rects2, &vec![(true, true), (true, true)], RoomPoint::new(107, 104)), ResizeSide::NoSide);
    assert_eq!(selection_resize_side(&tiles[..1].to_vec(), &rects2[..1].to_vec(), &vec![(true, true)], RoomPoint::new(107, 104)), ResizeSide::Right);
}

fn rect_at(x: i32, y: i32, w: i32, h: i32) -> RoomRect {
    RoomRect::new(RoomPoint::new(x, y), RoomSize::new(w, h))
}
