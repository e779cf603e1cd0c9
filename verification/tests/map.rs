use arborio::history::MapHistory;
use arborio::map::{apply_map_action, apply_map_batch, map_event_step, MapAction, MapEvent, MapModel, MapState};
use arborio::room::{MapEntity, Room, RoomAction};
use arborio::styles::Stylegrounds;
use arborio::tile_grid::TileGrid;
use arborio::units::{MapPointStrict, MapRectStrict, MapSizeStrict};
use arborio::uuid::IdCounter;

fn room() -> Room {
    Room {
        bounds: MapRectStrict::new(MapPointStrict::new(0, 0), MapSizeStrict::new(16, 16)),
        solids: TileGrid { tiles: vec!['0'; 4], stride: 2 },
        bg: TileGrid { tiles: vec!['0'; 4], stride: 2 },
        object_tiles: TileGrid { tiles: vec![-1; 4], stride: 2 },
        entities: vec![],
        triggers: vec![],
        fg_decals: vec![],
        bg_decals: vec![],
    }
}

fn map() -> MapModel<u32> {
    MapModel { styles: Stylegrounds { fg: vec![], bg: vec![] }, names: vec!["a-00".to_string()], rooms: vec![room()] }
}

fn entity(id: i32) -> MapEntity {
    MapEntity { id, name: "spring".to_string(), x: 8, y: 8, width: 8, height: 8, nodes: vec![], attributes: vec![] }
}

#[test]
fn adding_a_room_with_a_taken_name_renames_it_and_deleting_undoes() {
    let mut m = map();
    let mut next = 10;
    let mut ids = IdCounter::new();
    let inv = apply_map_action(&mut m, MapAction::AddRoom { idx: None, name: "a-00".to_string(), room: room() }, &mut next, &mut ids).unwrap();
    assert_eq!(m.names, vec!["a-00".to_string(), "a-01".to_string()]);
    assert!(matches!(inv, MapAction::DeleteRoom { idx: 1 }));
    let back = apply_map_action(&mut m, inv, &mut next, &mut ids).unwrap();
    assert_eq!(m.names.len(), 1);
    assert!(matches!(back, MapAction::AddRoom { idx: Some(1), .. }));
    let err = apply_map_action(&mut m, MapAction::DeleteRoom { idx: 5 }, &mut next, &mut ids).unwrap_err();
    assert_eq!(err, "Out of range");
}

#[test]
fn generated_entities_take_successive_ids() {
    let mut m = map();
    let mut next = 10;
    let mut ids = IdCounter::new();
    let batch = vec![
        MapAction::RoomAction { idx: 0, event: RoomAction::EntityAdd { entity: entity(0), trigger: false, genid: true } },
        MapAction::RoomAction { idx: 0, event: RoomAction::EntityAdd { entity: entity(0), trigger: false, genid: true } },
    ];
    let invs = apply_map_batch(&mut m, batch, &mut next, &mut ids).unwrap();
    assert_eq!(m.rooms[0].entities.iter().map(|e| e.id).collect::<Vec<_>>(), vec![10, 11]);
    assert_eq!(next, 12);
    assert_eq!(invs.len(), 2);
}

#[test]
fn a_refused_edit_stops_the_batch() {
    let mut m = map();
    let mut next = 1;
    let mut ids = IdCounter::new();
    let batch = vec![
        MapAction::RoomAction { idx: 0, event: RoomAction::EntityAdd { entity: entity(3), trigger: false, genid: false } },
        MapAction::RoomAction { idx: 7, event: RoomAction::EntityRemove { id: 3, trigger: false } },
        MapAction::RoomAction { idx: 0, event: RoomAction::EntityRemove { id: 3, trigger: false } },
    ];
    let err = apply_map_batch(&mut m, batch, &mut next, &mut ids).unwrap_err();
    assert_eq!(err, "Out of range");
    assert_eq!(m.rooms[0].entities.len(), 1);
}

fn concat(mut a: Vec<MapAction<u32>>, b: Vec<MapAction<u32>>) -> Vec<MapAction<u32>> {
    a.extend(b);
    a
}

#[test]
fn edit_undo_redo_move_entries_between_the_lists() {
    let mut st = MapState { map: map(), history: MapHistory::new(), dirty: false };
    let mut next = 1;
    let mut ids = IdCounter::new();
    let add = |id| vec![MapAction::RoomAction { idx: 0, event: RoomAction::EntityAdd { entity: entity(id), trigger: false, genid: false } }];
    map_event_step(&mut st, MapEvent::Action { events: add(3), merge_phase: 7 }, &mut next, &mut ids, concat).unwrap();
    map_event_step(&mut st, MapEvent::Action { events: add(4), merge_phase: 7 }, &mut next, &mut ids, concat).unwrap();
    assert!(st.dirty);
    assert_eq!(st.history.undo.len(), 1);
    assert_eq!(st.history.undo[0].len(), 2);
    st.dirty = false;
    map_event_step(&mut st, MapEvent::Undo, &mut next, &mut ids, concat).unwrap();
    assert!(st.map.rooms[0].entities.is_empty());
    assert!(st.dirty);
    assert_eq!(st.history.undo.len(), 0);
    assert_eq!(st.history.redo.len(), 1);
    assert_eq!(st.history.phase, 0);
    map_event_step(&mut st, MapEvent::Redo, &mut next, &mut ids, concat).unwrap();
    assert_eq!(st.map.rooms[0].entities.len(), 2);
    assert_eq!(st.history.undo.len(), 1);
    assert_eq!(st.history.redo.len(), 0);
    map_event_step(&mut st, MapEvent::Undo, &mut next, &mut ids, concat).unwrap();
    map_event_step(&mut st, MapEvent::Undo, &mut next, &mut ids, concat).unwrap();
    assert_eq!(st.history.redo.len(), 1);
}

#[test]
fn deleting_a_room_is_undone_in_place_under_its_name() {
    let mut m = map();
    m.names.push("b-00".to_string());
    let mut other = room();
    other.entities.push(entity(9));
    m.rooms.push(other);
    let mut next = 1;
    let mut ids = IdCounter::new();
    let inv = apply_map_action(&mut m, MapAction::DeleteRoom { idx: 0 }, &mut next, &mut ids).unwrap();
    assert_eq!(m.names, vec!["b-00".to_string()]);
    apply_map_action(&mut m, inv, &mut next, &mut ids).unwrap();
    assert_eq!(m.names, vec!["a-00".to_string(), "b-00".to_string()]);
    assert!(m.rooms[0].entities.is_empty());
    assert_eq!(m.rooms[1].entities.len(), 1);
}
