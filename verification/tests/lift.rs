use arborio::lift::{delete_all, FloatLayer, SelectionEdit};
use arborio::lift::float_tiles;
use arborio::room::{Room, RoomAction};
use arborio::selection::AppSelection;
use arborio::tile_grid::TileGrid;
use arborio::units::{MapPointStrict, MapRectStrict, MapSizeStrict, TilePoint};

fn room() -> Room {
    let mut solids = vec!['0'; 64];
    solids[1] = '1';
    solids[8 + 2] = '3';
    let mut bg = vec!['0'; 64];
    bg[0] = 'b';
    let mut obj = vec![-1; 64];
    obj[9] = 4;
    Room {
        bounds: MapRectStrict::new(MapPointStrict::new(0, 0), MapSizeStrict::new(64, 64)),
        solids: TileGrid { tiles: solids, stride: 8 },
        bg: TileGrid { tiles: bg, stride: 8 },
        object_tiles: TileGrid { tiles: obj, stride: 8 },
        entities: vec![],
        triggers: vec![],
        fg_decals: vec![],
        bg_decals: vec![],
    }
}

#[test]
fn selected_tiles_are_lifted_and_emptied() {
    let r = room();
    let sel = vec![
        AppSelection::FgTile(TilePoint::new(1, 0)),
        AppSelection::BgTile(TilePoint::new(0, 0)),
        AppSelection::ObjectTile(TilePoint::new(1, 1)),
        AppSelection::EntityBody(5, false),
        AppSelection::FgTile(TilePoint::new(2, 1)),
    ];
    let (floats, edits, lifted) = float_tiles(&r, &sel);
    let (o, g) = floats.fg.as_ref().unwrap();
    assert_eq!((o.x, o.y), (1, 0));
    assert_eq!(g.stride, 2);
    assert_eq!(g.tiles, vec!['1', '\0', '\0', '3']);
    let (o, g) = floats.bg.as_ref().unwrap();
    assert_eq!((o.x, o.y, g.stride), (0, 0, 1));
    assert_eq!(g.tiles, vec!['b']);
    let (o, g) = floats.obj.as_ref().unwrap();
    assert_eq!((o.x, o.y, g.stride), (1, 1, 1));
    assert_eq!(g.tiles, vec![4]);
    assert_eq!(edits.len(), 4);
    assert!(matches!(&edits[0], RoomAction::TileUpdate { fg: true, offset, data }
        if offset.x == 1 && offset.y == 0 && data.tiles == vec!['0'] && data.stride == 1));
    assert!(matches!(&edits[1], RoomAction::TileUpdate { fg: false, offset, .. } if offset.x == 0 && offset.y == 0));
    assert!(matches!(&edits[2], RoomAction::ObjectTileUpdate { offset, data }
        if offset.x == 1 && offset.y == 1 && data.tiles == vec![-1]));
    assert!(matches!(&edits[3], RoomAction::TileUpdate { fg: true, offset, .. } if offset.x == 2 && offset.y == 1));
    assert_eq!(lifted.len(), 4);
    assert!(matches!(lifted[3], AppSelection::FgTile(p) if p.x == 2 && p.y == 1));
}

#[test]
fn no_tiles_selected_lifts_nothing() {
    let r = room();
    let (floats, edits, lifted) = float_tiles(&r, &vec![AppSelection::Decal(1, true)]);
    assert!(floats.fg.is_none() && floats.bg.is_none() && floats.obj.is_none());
    assert!(edits.is_empty() && lifted.is_empty());
}

use arborio::lift::{delete_edits, DeleteEdit};
use arborio::room::MapEntity;

fn ent(id: i32, nodes: Vec<(i32, i32)>) -> MapEntity {
    MapEntity { id, name: "e".to_string(), x: 0, y: 0, width: 8, height: 8, nodes, attributes: vec![] }
}

#[test]
fn deleting_removes_bodies_and_decals_and_trims_nodes() {
    let mut r = room();
    r.entities.push(ent(5, vec![(1, 1), (2, 2), (3, 3)]));
    r.triggers.push(ent(7, vec![(0, 0)]));
    let sel = vec![
        AppSelection::EntityNode(5, 1, false),
        AppSelection::Decal(3, true),
        AppSelection::EntityNode(7, 0, true),
        AppSelection::EntityBody(7, true),
        AppSelection::EntityNode(5, 2, false),
        AppSelection::FgTile(TilePoint::new(0, 0)),
    ];
    let out = delete_edits(&r, &sel);
    assert_eq!(out.len(), 3);
    assert!(matches!(out[0], DeleteEdit::Decal { id: 3, fg: true }));
    assert!(matches!(out[1], DeleteEdit::Entity { id: 7, trigger: true }));
    assert!(matches!(&out[2], DeleteEdit::Nodes { id: 5, trigger: false, nodes } if *nodes == vec![(1, 1)]));
}

#[test]
fn nodes_of_missing_entity_are_ignored() {
    let r = room();
    let out = delete_edits(&r, &vec![AppSelection::EntityNode(9, 0, false)]);
    assert!(out.is_empty());
}

#[test]
fn deleting_all_clears_tiles_floats_and_selection() {
    let mut r = room();
    r.entities.push(ent(5, vec![(1, 1), (2, 2)]));
    let sel = vec![
        AppSelection::FgTile(TilePoint::new(1, 0)),
        AppSelection::EntityNode(5, 0, false),
        AppSelection::Decal(3, false),
    ];
    let out = delete_all(&r, &sel);
    assert_eq!(out.len(), 8);
    assert!(matches!(&out[0], SelectionEdit::Room(RoomAction::TileUpdate { fg: true, offset, data })
        if offset.x == 1 && offset.y == 0 && data.tiles == vec!['0']));
    assert!(matches!(&out[1], SelectionEdit::Deselect(v) if v.len() == 1));
    assert!(matches!(&out[2], SelectionEdit::Delete(DeleteEdit::Decal { id: 3, fg: false })));
    assert!(matches!(&out[3], SelectionEdit::ClearFloat(FloatLayer::Fg)));
    assert!(matches!(&out[4], SelectionEdit::ClearFloat(FloatLayer::Bg)));
    assert!(matches!(&out[5], SelectionEdit::ClearFloat(FloatLayer::Obj)));
    assert!(matches!(&out[6], SelectionEdit::Delete(DeleteEdit::Nodes { id: 5, trigger: false, nodes })
        if *nodes == vec![(2, 2)]));
    assert!(matches!(&out[7], SelectionEdit::ClearSelection));
}

#[test]
fn tiles_outside_the_room_are_not_lifted() {
    let r = room();
    let sel = vec![
        AppSelection::FgTile(TilePoint::new(i32::MAX, i32::MIN)),
        AppSelection::FgTile(TilePoint::new(1, 0)),
        AppSelection::BgTile(TilePoint::new(-5, 3)),
    ];
    let (floats, edits, lifted) = float_tiles(&r, &sel);
    let (o, g) = floats.fg.as_ref().unwrap();
    assert_eq!((o.x, o.y, g.stride), (1, 0, 1));
    assert_eq!(g.tiles, vec!['1']);
    assert!(floats.bg.is_none());
    assert_eq!(edits.len(), 3);
    assert_eq!(lifted.len(), 3);
}
