use arborio::layer::Layer;
use arborio::room::Room;
use arborio::select_area::selectables_in;
use arborio::selection::AppSelection;
use arborio::tile_grid::TileGrid;
use arborio::units::{MapPointStrict, MapRectStrict, MapSizeStrict, RoomPoint, RoomRect, RoomSize};

fn room() -> Room {
    let mut solids = vec!['0'; 64];
    solids[1] = '1';
    solids[8 + 2] = '3';
    let mut bg = vec!['0'; 64];
    bg[0] = 'b';
    let mut obj = vec![-1; 64];
    obj[9] = 4;
    Room {
        bounds: MapRectStrict::new(MapPointStrict::new(100, 100), MapSizeStrict::new(64, 64)),
        solids: TileGrid { tiles: solids, stride: 8 },
        bg: TileGrid { tiles: bg, stride: 8 },
        object_tiles: TileGrid { tiles: obj, stride: 8 },
        entities: vec![],
        triggers: vec![],
        fg_decals: vec![],
        bg_decals: vec![],
    }
}

fn rect(x: i32, y: i32, w: i32, h: i32) -> RoomRect {
    RoomRect::new(RoomPoint::new(x, y), RoomSize::new(w, h))
}

fn none() -> Vec<(AppSelection, Vec<RoomRect>)> {
    vec![]
}

#[test]
fn area_takes_filled_foreground_tiles() {
    let r = room();
    let out = selectables_in(&r, Layer::FgTiles, rect(0, 0, 20, 12), &none(), &none(), &none(), &none());
    assert_eq!(out.len(), 2);
    assert!(matches!(out[0], AppSelection::FgTile(p) if p.x == 1 && p.y == 0));
    assert!(matches!(out[1], AppSelection::FgTile(p) if p.x == 2 && p.y == 1));
}

#[test]
fn area_with_negative_size_is_normalized() {
    let r = room();
    let out = selectables_in(&r, Layer::FgTiles, rect(20, 12, -20, -12), &none(), &none(), &none(), &none());
    assert_eq!(out.len(), 2);
}

#[test]
fn area_outside_room_takes_no_tiles() {
    let r = room();
    let out = selectables_in(&r, Layer::All, rect(-40, -40, 30, 30), &none(), &none(), &none(), &none());
    assert!(out.is_empty());
}

#[test]
fn all_layers_in_order_with_hitboxes() {
    let r = room();
    let entities = vec![
        (AppSelection::EntityBody(5, false), vec![rect(10, 10, 8, 8)]),
        (AppSelection::EntityBody(6, false), vec![rect(100, 100, 8, 8)]),
    ];
    let fg_decals = vec![(AppSelection::Decal(3, true), vec![rect(-4, -4, 8, 8)])];
    let out = selectables_in(&r, Layer::All, rect(0, 0, 16, 16), &fg_decals, &entities, &none(), &none());
    assert_eq!(out.len(), 5);
    assert!(matches!(out[0], AppSelection::Decal(3, true)));
    assert!(matches!(out[1], AppSelection::ObjectTile(p) if p.x == 1 && p.y == 1));
    assert!(matches!(out[2], AppSelection::FgTile(p) if p.x == 1 && p.y == 0));
    assert!(matches!(out[3], AppSelection::EntityBody(5, false)));
    assert!(matches!(out[4], AppSelection::BgTile(p) if p.x == 0 && p.y == 0));
}

use arborio::room::MapEntity;
use arborio::select_area::elaborate_nodes;

#[test]
fn selecting_a_node_takes_its_entity_and_all_nodes() {
    let mut r = room();
    r.entities.push(MapEntity {
        id: 5, name: "zipMover".to_string(), x: 0, y: 0, width: 16, height: 16,
        nodes: vec![(1, 1), (2, 2)], attributes: vec![],
    });
    let out = elaborate_nodes(&r, &vec![AppSelection::EntityNode(5, 1, false), AppSelection::Decal(3, true)]);
    assert_eq!(out.len(), 3);
    assert!(matches!(out[0], AppSelection::EntityBody(5, false)));
    assert!(matches!(out[1], AppSelection::EntityNode(5, 0, false)));
    assert!(matches!(out[2], AppSelection::EntityNode(5, 1, false)));
    assert!(elaborate_nodes(&r, &vec![AppSelection::Decal(3, true)]).is_empty());
}
