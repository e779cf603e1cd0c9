use arborio::nudge::{nudge_selection, NudgeEdit};
use arborio::room::{MapDecal, MapEntity, Room};
use arborio::selection::AppSelection;
use arborio::tile_grid::TileGrid;
use arborio::units::{MapPointStrict, MapRectStrict, MapSizeStrict, RoomPoint, RoomVector};

fn ent(id: i32, x: i32, y: i32, nodes: Vec<(i32, i32)>) -> MapEntity {
    MapEntity { id, name: "e".to_string(), x, y, width: 8, height: 8, nodes, attributes: vec![] }
}

fn room() -> Room {
    Room {
        bounds: MapRectStrict::new(MapPointStrict::new(0, 0), MapSizeStrict::new(64, 64)),
        solids: TileGrid { tiles: vec!['0'; 64], stride: 8 },
        bg: TileGrid { tiles: vec!['0'; 64], stride: 8 },
        object_tiles: TileGrid { tiles: vec![-1; 64], stride: 8 },
        entities: vec![ent(1, 10, 20, vec![(30, 40), (50, 60)]), ent(2, 0, 0, vec![])],
        triggers: vec![ent(1, 5, 5, vec![(6, 6)])],
        fg_decals: vec![MapDecal { id: 4, x: 100, y: 100, scale_x: 0, scale_y: 0, texture: "d".to_string() }],
        bg_decals: vec![],
    }
}

#[test]
fn nudging_moves_bodies_nodes_and_decals_from_where_they_stand() {
    let r = room();
    let sel = vec![
        AppSelection::EntityNode(1, 1, false),
        AppSelection::Decal(4, true),
        AppSelection::EntityNode(1, 0, true),
        AppSelection::EntityBody(1, false),
        AppSelection::Decal(9, false),
        AppSelection::FgFloat,
    ];
    let starts = vec![None; sel.len()];
    let out = nudge_selection(&r, &sel, &starts, RoomVector::new(8, -8));
    assert_eq!(out.len(), 3);
    assert!(matches!(out[0], NudgeEdit::Decal { id: 4, fg: true, x: 108, y: 92 }));
    assert!(matches!(&out[1], NudgeEdit::Entity { id: 1, trigger: false, x: 18, y: 12, nodes } if *nodes == vec![(30, 40), (58, 52)]));
    assert!(matches!(&out[2], NudgeEdit::Entity { id: 1, trigger: true, x: 5, y: 5, nodes } if *nodes == vec![(14, -2)]));
}

#[test]
fn dragging_moves_from_the_starts_given() {
    let r = room();
    let sel = vec![AppSelection::EntityBody(2, false), AppSelection::Decal(4, true)];
    let starts = vec![Some(RoomPoint::new(-16, 16)), None];
    let out = nudge_selection(&r, &sel, &starts, RoomVector::new(1, 2));
    assert_eq!(out.len(), 2);
    assert!(matches!(out[0], NudgeEdit::Decal { id: 4, fg: true, x: 101, y: 102 }));
    assert!(matches!(&out[1], NudgeEdit::Entity { id: 2, trigger: false, x: -15, y: 18, nodes } if nodes.is_empty()));
}
