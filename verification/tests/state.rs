use arborio::color::parse_color;
use arborio::config::{default_value, eight, type_meet, AttributeType, AttributeValue, PencilBehavior};
use arborio::flood::{bucket_it, bucket_patch};
use arborio::module::{if_not_default, module_kind, CelesteModuleKind};
use arborio::selection::AppSelection;
use arborio::rooms::{intersects_any, level_at, pick_new_name, resized_bounds, room_at, room_resize_side, rooms_in, side_at, ResizeSide};
use arborio::selectable::{entity_bounds, trigger_bounds, DecalSelectable, EntitySelectable, TileSelectable, TriggerSelectable};
use arborio::tile_grid::TileGrid;
use arborio::tiles::{add_floats_to_floats, apply_tiles, LevelFloatState};
use arborio::units::{MapPointStrict, MapRectStrict, MapSizeStrict, MapVectorStrict, Point2D, Rect, RoomRect, Size2D, TilePoint, TileSize};
use arborio::uuid::{next_uuid, ModuleID};
use arborio::layer::Layer;
use arborio::app_state::{palette_step, Palette, PaletteEvent};

#[test]
fn it_works() {
    assert_eq!(2 + 2, 4);
}

#[test]
fn lib_it_works() {
    let result = 2 + 2;
    assert_eq!(result, 4);
}

#[test]
fn uuids_count_up_and_wrap() {
    let mut counter = 1u32;
    assert_eq!(next_uuid(&mut counter), 1);
    assert_eq!(next_uuid(&mut counter), 2);
    assert_eq!(counter, 3);
    let mut counter = u32::MAX;
    assert_eq!(next_uuid(&mut counter), u32::MAX);
    assert_eq!(counter, 0);
    assert_eq!(ModuleID::null(), ModuleID(0));
    let mut counter = 7u32;
    assert_eq!(ModuleID::new(&mut counter), ModuleID(7));
}

#[test]
fn module_kinds() {
    assert_eq!(module_kind(&"Celeste".to_string(), Some(true)), CelesteModuleKind::Builtin);
    assert_eq!(module_kind(&"Mod".to_string(), Some(true)), CelesteModuleKind::Zip);
    assert_eq!(module_kind(&"Mod".to_string(), Some(false)), CelesteModuleKind::Directory);
    assert_eq!(module_kind(&"Mod".to_string(), None), CelesteModuleKind::Builtin);
}

#[test]
fn tile_selectables_compare_by_id() {
    let d = TileSelectable::default();
    assert_eq!(d.id, '0');
    assert_eq!(d.name, "Empty");
    assert!(d.texture.is_none());
    let other = TileSelectable { id: '0', name: "Other", texture: Some("x") };
    assert!(d == other);
    let third = TileSelectable { id: '1', name: "Empty", texture: None };
    assert!(d != third);
    assert_eq!(eight(), 8);
}

fn map_rect(x: i32, y: i32, w: i32, h: i32) -> MapRectStrict {
    Rect::new(MapPointStrict::new(x, y), MapSizeStrict::new(w, h))
}

#[test]
fn rooms_under_a_rectangle() {
    let bounds = vec![map_rect(0, 0, 10, 10), map_rect(20, 0, 10, 10), map_rect(5, 5, 20, 2)];
    assert_eq!(rooms_in(&bounds, map_rect(8, 8, 4, 4)), vec![0]);
    assert_eq!(rooms_in(&bounds, map_rect(30, 10, -25, -10)), vec![0, 1, 2]);
    assert_eq!(rooms_in(&bounds, map_rect(100, 100, 1, 1)), Vec::<usize>::new());
    assert_eq!(room_at(&bounds, MapPointStrict::new(6, 6)), Some(0));
    assert_eq!(room_at(&bounds, MapPointStrict::new(21, 6)), Some(1));
    assert_eq!(room_at(&bounds, MapPointStrict::new(15, 6)), Some(2));
    assert_eq!(room_at(&bounds, MapPointStrict::new(15, 0)), None);
    assert_eq!(room_at(&bounds, MapPointStrict::new(10, 0)), None);
}

#[test]
fn intersection_with_any() {
    let rooms: Vec<RoomRect> = vec![
        Rect::new(Point2D::new(0, 0), Size2D::new(8, 8)),
        Rect::new(Point2D::new(16, 0), Size2D::new(8, 8)),
    ];
    assert!(intersects_any(&rooms, &Rect::new(Point2D::new(7, 7), Size2D::new(2, 2))));
    assert!(!intersects_any(&rooms, &Rect::new(Point2D::new(8, 0), Size2D::new(8, 8))));
    assert!(!intersects_any(&[], &Rect::new(Point2D::new(0, 0), Size2D::new(8, 8))));
}

#[test]
fn resize_sides() {
    assert_eq!(ResizeSide::from_sides(true, false, false, false), ResizeSide::Top);
    assert_eq!(ResizeSide::from_sides(false, true, false, true), ResizeSide::BottomRight);
    assert_eq!(ResizeSide::from_sides(true, true, false, false), ResizeSide::NoSide);
    assert!(ResizeSide::TopLeft.is_top() && ResizeSide::TopLeft.is_left());
    assert!(!ResizeSide::TopLeft.is_bottom() && !ResizeSide::TopLeft.is_right());
    assert_eq!(ResizeSide::TopLeft.filter_out_top_bottom(), ResizeSide::Left);
    assert_eq!(ResizeSide::BottomRight.filter_out_left_right(), ResizeSide::Bottom);
    for s in [
        ResizeSide::NoSide, ResizeSide::Top, ResizeSide::Bottom, ResizeSide::Left, ResizeSide::Right,
        ResizeSide::TopLeft, ResizeSide::TopRight, ResizeSide::BottomLeft, ResizeSide::BottomRight,
    ] {
        assert_eq!(ResizeSide::from_sides(s.is_top(), s.is_bottom(), s.is_left(), s.is_right()), s);
    }
}

fn grid(rows: &[&str]) -> TileGrid<char> {
    let stride = rows[0].chars().count();
    let tiles = rows.iter().flat_map(|r| r.chars()).collect();
    TileGrid { tiles, stride }
}

#[test]
fn empty_grid() {
    let g: TileGrid<char> = TileGrid::empty();
    assert!(g.tiles.is_empty());
    assert_eq!(g.stride, 1);
    let g = TileGrid::new(TileSize::new(3, 2), 'x');
    assert_eq!(g.tiles.len(), 6);
    assert_eq!(g.get(TilePoint::new(2, 1)), Some(&'x'));
    assert_eq!(g.get(TilePoint::new(3, 0)), None);
}

#[test]
fn empty_grid_has_no_tile_anywhere() {
    let g: TileGrid<char> = TileGrid::empty();
    for (x, y) in [(0, 0), (i32::MAX, 1), (i32::MIN, i32::MIN), (0, i32::MAX), (-1, 0)] {
        assert_eq!(g.get(TilePoint::new(x, y)), None);
    }
    let g = TileGrid::new(TileSize::new(3, 2), 'x');
    assert_eq!(g.get(TilePoint::new(i32::MAX, i32::MAX)), None);
    assert_eq!(g.get(TilePoint::new(0, -1)), None);
}

#[test]
fn rooms_at_the_edges_of_the_plane() {
    let bounds = vec![map_rect(i32::MAX - 10, i32::MAX - 10, 10, 10), map_rect(i32::MIN, i32::MIN, 20, 20)];
    assert_eq!(room_at(&bounds, MapPointStrict::new(i32::MAX - 1, i32::MAX - 1)), Some(0));
    assert_eq!(room_at(&bounds, MapPointStrict::new(i32::MIN, i32::MIN)), Some(1));
    assert_eq!(room_at(&bounds, MapPointStrict::new(i32::MAX, i32::MAX)), None);
    assert_eq!(rooms_in(&bounds, map_rect(i32::MIN, i32::MIN, i32::MAX, i32::MAX)), vec![1]);
    assert_eq!(rooms_in(&bounds, map_rect(i32::MAX, i32::MAX, -20, -20)), vec![0]);
}

#[test]
fn bucket_fills_connected_tiles() {
    let g = grid(&["aab", "abb", "aaa"]);
    let mut filled = bucket_it(&g, TilePoint::new(0, 0));
    filled.sort_by_key(|p| (p.y, p.x));
    let pts: Vec<(i32, i32)> = filled.iter().map(|p| (p.x, p.y)).collect();
    assert_eq!(pts, vec![(0, 0), (1, 0), (0, 1), (0, 2), (1, 2), (2, 2)]);
    let b = bucket_it(&g, TilePoint::new(2, 0));
    assert_eq!(b.len(), 3);
}

#[test]
fn apply_tiles_twice_restores() {
    let mut target = grid(&["....", "....", "...."]);
    let mut data = grid(&["ab", "0c"]);
    let dirty = apply_tiles(&TilePoint::new(1, 1), &mut data, &mut target, '0');
    assert!(dirty);
    let rows: String = target.tiles.iter().collect();
    assert_eq!(rows, "....".to_string() + ".ab." + "..c.");
    let dirty = apply_tiles(&TilePoint::new(1, 1), &mut data, &mut target, '0');
    assert!(dirty);
    let rows: String = target.tiles.iter().collect();
    assert_eq!(rows, "............");
}

fn names(v: &[&str]) -> Vec<String> {
    v.iter().map(|s| s.to_string()).collect()
}

#[test]
fn new_room_names() {
    assert_eq!(pick_new_name(&names(&[])), "a-00");
    assert_eq!(pick_new_name(&names(&["a-00"])), "a-01");
    assert_eq!(pick_new_name(&names(&["a-00", "a-01", "a-03"])), "a-02");
    let mut full_a: Vec<String> = (0..100).map(|n| format!("a-{:02}", n)).collect();
    assert_eq!(pick_new_name(&full_a), "b-00");
    full_a.push("c-00".to_string());
    assert_eq!(pick_new_name(&full_a), "c-01");
    let all_letters: Vec<String> = ('a'..='z').map(|c| format!("{}-00", c)).collect();
    let picked = pick_new_name(&all_letters);
    assert_eq!(picked, "lvl_0");
    let mut crowded: Vec<String> = ('a'..='z').flat_map(|c| (0..100).map(move |n| format!("{}-{:02}", c, n))).collect();
    assert_eq!(pick_new_name(&crowded), "lvl_0");
    crowded.push("lvl_0".to_string());
    crowded.push("lvl_1".to_string());
    assert_eq!(pick_new_name(&crowded), "lvl_2");
}

#[test]
fn level_under_a_point() {
    let bounds = vec![map_rect(0, 0, 10, 10), map_rect(5, 5, 10, 10)];
    assert_eq!(level_at(&bounds, MapPointStrict::new(7, 7)), Some(0));
    assert_eq!(level_at(&bounds, MapPointStrict::new(12, 12)), Some(1));
    assert_eq!(level_at(&bounds, MapPointStrict::new(20, 20)), None);
    assert_eq!(level_at(&bounds, MapPointStrict::new(10, 0)), None);
}

#[test]
fn colors() {
    assert_eq!(parse_color("#ff8000"), Some((255, 128, 0)));
    assert_eq!(parse_color("ABCDEF"), Some((0xab, 0xcd, 0xef)));
    assert_eq!(parse_color("##+f+a+0"), Some((15, 10, 0)));
    assert_eq!(parse_color("#fff"), None);
    assert_eq!(parse_color("#gg0000"), None);
    assert_eq!(parse_color("#-10000"), None);
    assert_eq!(parse_color(""), None);
}

#[test]
fn sides_grabbed_by_a_pointer() {
    let r = map_rect(0, 0, 40, 24);
    assert_eq!(side_at(&r, MapPointStrict::new(20, 10)), ResizeSide::NoSide);
    assert_eq!(side_at(&r, MapPointStrict::new(20, 1)), ResizeSide::Top);
    assert_eq!(side_at(&r, MapPointStrict::new(20, 22)), ResizeSide::Bottom);
    assert_eq!(side_at(&r, MapPointStrict::new(1, 10)), ResizeSide::Left);
    assert_eq!(side_at(&r, MapPointStrict::new(38, 10)), ResizeSide::Right);
    assert_eq!(side_at(&r, MapPointStrict::new(0, 0)), ResizeSide::TopLeft);
    assert_eq!(side_at(&r, MapPointStrict::new(39, 23)), ResizeSide::BottomRight);
    assert_eq!(side_at(&r, MapPointStrict::new(37, 21)), ResizeSide::NoSide);
}

#[test]
fn resize_side_of_the_selection() {
    let bounds = vec![map_rect(0, 0, 40, 24), map_rect(100, 100, 16, 16)];
    let p = MapPointStrict::new(101, 108);
    assert_eq!(room_resize_side(&bounds, &vec![0, 1], p), ResizeSide::Left);
    assert_eq!(room_resize_side(&bounds, &vec![0], p), ResizeSide::NoSide);
    assert_eq!(room_resize_side(&bounds, &vec![], p), ResizeSide::NoSide);
    assert_eq!(room_resize_side(&bounds, &vec![7, 1], p), ResizeSide::Left);
}

fn dims(r: MapRectStrict) -> (i32, i32, i32, i32) {
    (r.origin.x, r.origin.y, r.size.width, r.size.height)
}

#[test]
fn dragged_room_bounds() {
    let start = map_rect(10, 20, 40, 32);
    let d = MapVectorStrict::new(8, -8);
    assert_eq!(dims(resized_bounds(start, None, d)), (18, 12, 32, 40));
    assert_eq!(dims(resized_bounds(start, Some(ResizeSide::Left), d)), (18, 20, 32, 32));
    assert_eq!(dims(resized_bounds(start, Some(ResizeSide::Right), d)), (10, 20, 48, 32));
    assert_eq!(dims(resized_bounds(start, Some(ResizeSide::TopRight), d)), (10, 12, 48, 40));
    assert_eq!(dims(resized_bounds(start, Some(ResizeSide::Bottom), d)), (10, 20, 40, 24));
    assert_eq!(dims(resized_bounds(start, Some(ResizeSide::Right), MapVectorStrict::new(-100, 0))), (10, 20, 8, 32));
}

#[test]
fn layer_names() {
    assert_eq!(Layer::FgTiles.name(), "Foreground Tiles");
    assert_eq!(Layer::ObjectTiles.name(), "Object Tiles");
    assert_eq!(Layer::All.name(), "All Layers");
    assert_eq!(Layer::BgDecals.name(), "Background Decals");
}

#[test]
fn attribute_kinds() {
    assert_eq!(PencilBehavior::default(), PencilBehavior::Line);
    assert_eq!(AttributeValue::String("x".to_string()).ty(), AttributeType::String);
    assert_eq!(AttributeValue::Float(0x3f80_0000).ty(), AttributeType::Float);
    assert_eq!(AttributeValue::Int(3).ty(), AttributeType::Int);
    assert_eq!(AttributeValue::Bool(true).ty(), AttributeType::Bool);
}

#[test]
fn bucket_patch_covers_the_region() {
    let g = grid(&["aab", "abb", "aaa"]);
    let (origin, patch) = bucket_patch(&g, TilePoint::new(2, 0), 'z').unwrap();
    assert_eq!((origin.x, origin.y), (1, 0));
    assert_eq!(patch.stride, 2);
    assert_eq!(patch.tiles, vec!['\0', 'z', 'z', 'z']);
    let (origin, patch) = bucket_patch(&g, TilePoint::new(0, 0), 'x').unwrap();
    assert_eq!((origin.x, origin.y, patch.stride), (0, 0, 3));
    assert_eq!(patch.tiles.iter().filter(|c| **c == 'x').count(), 6);
    assert!(bucket_patch(&g, TilePoint::new(5, 0), 'x').is_none());
}

#[test]
fn floats_laid_over_floats() {
    let mut floats = LevelFloatState {
        fg: Some((TilePoint::new(0, 0), grid(&["ab"]))),
        bg: None,
        obj: None,
    };
    let src = LevelFloatState {
        fg: Some((TilePoint::new(1, 0), TileGrid { tiles: vec!['\0', 'c'], stride: 1 })),
        bg: Some((TilePoint::new(2, 2), grid(&["q"]))),
        obj: Some((TilePoint::new(0, 0), TileGrid { tiles: vec![-2, 5], stride: 2 })),
    };
    add_floats_to_floats(&mut floats, &src);
    let (o, g) = floats.fg.unwrap();
    assert_eq!((o.x, o.y, g.stride), (0, 0, 2));
    assert_eq!(g.tiles, vec!['a', 'b', '\0', 'c']);
    let (o, g) = floats.bg.unwrap();
    assert_eq!((o.x, o.y, g.tiles), (2, 2, vec!['q']));
    let (o, g) = floats.obj.unwrap();
    assert_eq!((o.x, o.y, g.tiles), (1, 0, vec![5]));
}

#[test]
fn selections_of_entities() {
    assert_eq!(AppSelection::EntityBody(4, true).entity_info(), Some((4, true)));
    assert_eq!(AppSelection::EntityNode(9, 2, false).entity_info(), Some((9, false)));
    assert_eq!(AppSelection::Decal(3, true).entity_info(), None);
    assert_eq!(AppSelection::FgTile(TilePoint::new(1, 1)).entity_info(), None);
}

#[test]
fn empty_meta_texts_are_absent() {
    assert_eq!(if_not_default(String::new()), None);
    assert_eq!(if_not_default("Graphics/FgTiles.xml".to_string()), Some("Graphics/FgTiles.xml".to_string()));
}

#[test]
fn palette_entries() {
    let t = TileSelectable::other();
    assert_eq!((t.id, t.name, t.texture), ('\0', "other", None));
    assert_eq!(TileSelectable::default().search_text(), "Empty");
    assert_eq!(TileSelectable::default().display_name(), "Empty");
    assert_eq!(EntitySelectable::default().entity, "does not exist");
    assert_eq!(EntitySelectable::other(), EntitySelectable { entity: "arborio/other", template: 0 });
    assert_eq!(TriggerSelectable::other().trigger, "arborio/other");
    assert_eq!(TriggerSelectable::default().template, 0);
    assert_eq!(DecalSelectable::default().0, "does not exist");
    assert_eq!(DecalSelectable("decals/flower").search_text(), "decals/flower");
    assert_eq!(DecalSelectable::other().display_name(), "arborio/other");
}

#[test]
fn placing_entities_and_triggers() {
    assert_eq!(entity_bounds(16, 16, -8, 4, 8, 8, true, true), (8, 16, 8, 8));
    assert_eq!(entity_bounds(0, 0, 40, 32, 8, 16, true, false), (0, 0, 40, 16));
    assert_eq!(entity_bounds(0, 0, 40, -32, 8, 16, false, true), (0, -32, 8, 32));
    assert_eq!(trigger_bounds(10, 10, 3, -20), (10, -10, 8, 20));
    assert_eq!(trigger_bounds(0, 0, 24, 16), (0, 0, 24, 16));
}

#[test]
fn attribute_kinds_settle() {
    assert_eq!(type_meet(&AttributeType::Int, &AttributeType::Float), AttributeType::Float);
    assert_eq!(type_meet(&AttributeType::Float, &AttributeType::Int), AttributeType::Float);
    assert_eq!(type_meet(&AttributeType::Bool, &AttributeType::Int), AttributeType::String);
    assert_eq!(type_meet(&AttributeType::Bool, &AttributeType::Bool), AttributeType::Bool);
    assert_eq!(type_meet(&AttributeType::String, &AttributeType::Int), AttributeType::String);
    assert_eq!(type_meet(&AttributeType::Int, &AttributeType::Int), AttributeType::Int);
    assert_eq!(default_value(&AttributeType::Float), AttributeValue::Float(0));
    assert_eq!(default_value(&AttributeType::String), AttributeValue::String(String::new()));
    assert_eq!(default_value(&AttributeType::Bool), AttributeValue::Bool(false));
    assert_eq!(default_value(&AttributeType::Int), AttributeValue::Int(0));
}

#[test]
fn palette_choices_replace_one_field() {
    let mut p = Palette {
        current_layer: Layer::All,
        current_fg_tile: TileSelectable::default(),
        current_bg_tile: TileSelectable::default(),
        current_objtile: 0,
        current_entity: EntitySelectable::default(),
        current_trigger: TriggerSelectable::default(),
        current_decal: DecalSelectable::default(),
    };
    palette_step(&mut p, PaletteEvent::SelectLayer { layer: Layer::Entities });
    assert_eq!(p.current_layer, Layer::Entities);
    let t = TileSelectable { id: '3', name: "Dirt", texture: None };
    palette_step(&mut p, PaletteEvent::SelectPaletteTile { fg: false, tile: t });
    assert_eq!(p.current_bg_tile.id, '3');
    assert_eq!(p.current_fg_tile.id, '0');
    palette_step(&mut p, PaletteEvent::SelectPaletteObjectTile { tile: 7 });
    assert_eq!(p.current_objtile, 7);
    palette_step(&mut p, PaletteEvent::SelectPaletteDecal { decal: DecalSelectable("x") });
    assert_eq!(p.current_decal, DecalSelectable("x"));
    assert_eq!(p.current_layer, Layer::Entities);
}
