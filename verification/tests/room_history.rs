use std::collections::HashMap;

use arborio::app_state::{app_step, AppAction, AppCore, AppEventCore, LogLevel, LogMessage};
use arborio::registry::ModuleInfo;
use arborio::tabs::AppTab;
use arborio::uuid::ModuleID;
use arborio::history::MapHistory;
use arborio::room::{apply_room_action, MapDecal, MapEntity, Room, RoomAction};
use arborio::tile_grid::TileGrid;
use arborio::units::{MapPointStrict, MapRectStrict, MapSizeStrict, TilePoint};
use arborio::uuid::IdCounter;

fn room() -> Room {
    Room {
        bounds: MapRectStrict::new(MapPointStrict::new(0, 0), MapSizeStrict::new(16, 16)),
        solids: TileGrid { tiles: vec!['0'; 4], stride: 2 },
        bg: TileGrid { tiles: vec!['0'; 4], stride: 2 },
        object_tiles: TileGrid { tiles: vec![-1; 4], stride: 2 },
        entities: vec![],
        triggers: vec![],
        fg_decals: vec![],
        bg_decals: vec![],
    }
}

fn entity(id: i32, name: &str) -> MapEntity {
    MapEntity { id, name: name.to_string(), x: 8, y: 8, width: 8, height: 8, nodes: vec![], attributes: vec![] }
}

fn decal(id: u32) -> MapDecal {
    MapDecal { id, x: 1, y: 2, scale_x: 0x3f80_0000, scale_y: 0x3f80_0000, texture: "decals/x".to_string() }
}

#[test]
fn entity_edits_and_their_undo() {
    let mut r = room();
    let mut ids = IdCounter::new();
    let inv = apply_room_action(&mut r, RoomAction::EntityAdd { entity: entity(5, "spring"), trigger: false, genid: false }, 9, &mut ids).unwrap();
    assert_eq!(r.entities, vec![entity(5, "spring")]);
    assert!(matches!(inv, RoomAction::EntityRemove { id: 5, trigger: false }));
    let err = apply_room_action(&mut r, RoomAction::EntityAdd { entity: entity(5, "x"), trigger: false, genid: false }, 9, &mut ids).unwrap_err();
    assert_eq!(err, "Entity/trigger already exists");
    let upd = apply_room_action(&mut r, RoomAction::EntityUpdate { entity: entity(5, "bumper"), trigger: false }, 9, &mut ids).unwrap();
    assert_eq!(r.entities[0].name, "bumper");
    apply_room_action(&mut r, upd, 9, &mut ids).unwrap();
    assert_eq!(r.entities, vec![entity(5, "spring")]);
    apply_room_action(&mut r, inv, 9, &mut ids).unwrap();
    assert!(r.entities.is_empty());
    let gen = apply_room_action(&mut r, RoomAction::EntityAdd { entity: entity(0, "t"), trigger: true, genid: true }, 42, &mut ids).unwrap();
    assert_eq!(r.triggers[0].id, 42);
    assert!(matches!(gen, RoomAction::EntityRemove { id: 42, trigger: true }));
    let err = apply_room_action(&mut r, RoomAction::EntityRemove { id: 7, trigger: true }, 0, &mut ids).unwrap_err();
    assert_eq!(err, "No such entity");
}

#[test]
fn decal_edits_take_fresh_ids() {
    let mut r = room();
    let mut ids = IdCounter::new();
    let inv = apply_room_action(&mut r, RoomAction::DecalAdd { fg: true, decal: decal(0), genid: true }, 0, &mut ids).unwrap();
    assert_eq!(r.fg_decals[0].id, 1);
    assert!(matches!(inv, RoomAction::DecalRemove { fg: true, id: 1 }));
    let back = apply_room_action(&mut r, inv, 0, &mut ids).unwrap();
    assert!(r.fg_decals.is_empty());
    assert!(matches!(back, RoomAction::DecalRestore { fg: true, index: 0, .. }));
    assert_eq!(apply_room_action(&mut r, RoomAction::DecalUpdate { fg: false, decal: decal(3) }, 0, &mut ids).unwrap_err(), "No such decal");
}

#[test]
fn tile_patches_and_moves_undo() {
    let mut r = room();
    let mut ids = IdCounter::new();
    let patch = TileGrid { tiles: vec!['a', '\0'], stride: 2 };
    let inv = apply_room_action(&mut r, RoomAction::TileUpdate { fg: true, offset: TilePoint::new(0, 1), data: patch }, 0, &mut ids).unwrap();
    assert_eq!(r.solids.tiles, vec!['0', '0', 'a', '0']);
    apply_room_action(&mut r, inv, 0, &mut ids).unwrap();
    assert_eq!(r.solids.tiles, vec!['0'; 4]);
    let bigger = MapRectStrict::new(MapPointStrict::new(8, 8), MapSizeStrict::new(24, 8));
    let back = apply_room_action(&mut r, RoomAction::MoveRoom { bounds: bigger }, 0, &mut ids).unwrap();
    assert_eq!((r.solids.stride, r.solids.tiles.len()), (3, 3));
    assert_eq!(r.object_tiles.tiles, vec![-1, -1, -1]);
    assert!(matches!(back, RoomAction::MoveRoom { bounds } if bounds.size.width == 16));
}

#[test]
fn history_merges_by_phase_and_keeps_a_thousand() {
    let mut h: MapHistory<Vec<u32>> = MapHistory::new();
    let merge = |mut a: Vec<u32>, b: Vec<u32>| {
        a.extend(b);
        a
    };
    h.record(vec![1], 7, merge);
    h.record(vec![2], 7, merge);
    h.record(vec![3], 8, merge);
    assert_eq!(h.undo, vec![vec![1, 2], vec![3]]);
    let top = h.take_undo().unwrap();
    assert_eq!(top, vec![3]);
    h.push_redo(vec![30]);
    assert_eq!(h.phase, 0);
    h.record(vec![4], 0, merge);
    assert_eq!(h.undo, vec![vec![1, 2, 4]]);
    assert!(h.redo.is_empty());
    for i in 0..1200u32 {
        h.record(vec![i], i + 100, merge);
    }
    assert_eq!(h.undo.len(), 1000);
    assert_eq!(h.undo[0], vec![200]);
    let r = h.take_redo();
    assert!(r.is_none());
}

#[test]
fn tabs_open_select_and_close() {
    let mut st = AppCore { tabs: vec![], current_tab: 0, poison_tab: usize::MAX, logs: vec![], error_message: String::new() };
    let modules: HashMap<u32, ModuleInfo> = HashMap::new();
    let mut maps: HashMap<u32, ModuleID> = HashMap::new();
    let out = app_step(&mut st, AppEventCore::OpenLogsTab, &modules, &mut maps);
    assert_eq!(out, vec![AppAction::SelectTab { idx: 0 }]);
    let out = app_step(&mut st, AppEventCore::OpenInstallationTab, &modules, &mut maps);
    assert_eq!(out, vec![AppAction::SelectTab { idx: 1 }]);
    let out = app_step(&mut st, AppEventCore::OpenLogsTab, &modules, &mut maps);
    assert_eq!(out, vec![AppAction::SelectTab { idx: 0 }]);
    assert_eq!(st.tabs, vec![AppTab::Logs, AppTab::CelesteOverview]);
    let out = app_step(&mut st, AppEventCore::SelectTab { idx: 1 }, &modules, &mut maps);
    assert_eq!(out, vec![AppAction::SwitchOffTool]);
    assert_eq!(st.current_tab, 1);
    assert!(app_step(&mut st, AppEventCore::SelectTab { idx: 5 }, &modules, &mut maps).is_empty());
    app_step(&mut st, AppEventCore::Log { message: LogMessage { level: LogLevel::Error, message: "bad".to_string() } }, &modules, &mut maps);
    app_step(&mut st, AppEventCore::Log { message: LogMessage { level: LogLevel::Info, message: "ok".to_string() } }, &modules, &mut maps);
    assert_eq!((st.logs.len(), st.error_message.as_str()), (2, "bad"));
    app_step(&mut st, AppEventCore::OpenModuleOverviewTab { module: ModuleID(4) }, &modules, &mut maps);
    maps.insert(3, ModuleID(1));
    app_step(&mut st, AppEventCore::CloseTab { idx: 0 }, &modules, &mut maps);
    assert_eq!(st.tabs, vec![AppTab::CelesteOverview]);
    assert_eq!(st.current_tab, 0);
    assert_eq!(st.poison_tab, usize::MAX);
    assert!(maps.is_empty());
}

#[test]
fn removal_is_undone_in_place_under_the_same_id() {
    let mut r = room();
    let mut ids = IdCounter::new();
    r.entities = vec![entity(1, "a"), entity(2, "b"), entity(3, "c")];
    r.fg_decals = vec![decal(7), decal(8)];
    let inv = apply_room_action(&mut r, RoomAction::EntityRemove { id: 2, trigger: false }, 0, &mut ids).unwrap();
    assert!(matches!(&inv, RoomAction::EntityRestore { entity, trigger: false, index: 1 } if entity.id == 2));
    assert_eq!(r.entities, vec![entity(1, "a"), entity(3, "c")]);
    let back = apply_room_action(&mut r, inv, 0, &mut ids).unwrap();
    assert_eq!(r.entities, vec![entity(1, "a"), entity(2, "b"), entity(3, "c")]);
    assert!(matches!(back, RoomAction::EntityRemove { id: 2, trigger: false }));
    let inv = apply_room_action(&mut r, RoomAction::DecalRemove { fg: true, id: 7 }, 0, &mut ids).unwrap();
    assert!(matches!(&inv, RoomAction::DecalRestore { fg: true, index: 0, .. }));
    apply_room_action(&mut r, inv, 0, &mut ids).unwrap();
    assert_eq!(r.fg_decals, vec![decal(7), decal(8)]);
    let err = apply_room_action(&mut r, RoomAction::EntityRestore { entity: entity(9, "x"), trigger: true, index: 1 }, 0, &mut ids).unwrap_err();
    assert_eq!(err, "Out of range");
}
