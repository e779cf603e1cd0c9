use arborio::layer::Layer;
use arborio::lift::SelectionEdit;
use arborio::nudge::NudgeEdit;
use arborio::room::{MapEntity, Room, RoomAction};
use arborio::room_tool::ToolKey;
use arborio::rooms::ResizeSide;
use arborio::selection::AppSelection;
use arborio::selection_tool::{
    selection_tool_step, SelectionScene, SelectionStatus, SelectionTool, SelectionToolEvent, SelectionToolOutput,
};
use arborio::tile_grid::TileGrid;
use arborio::units::{MapPointStrict, MapRectStrict, MapSizeStrict, RoomPoint, RoomRect, RoomSize, TilePoint};
use arborio::uuid::IdCounter;

fn room() -> Room {
    let mut solids = vec!['0'; 64];
    solids[1] = '1';
    Room {
        bounds: MapRectStrict::new(MapPointStrict::new(0, 0), MapSizeStrict::new(64, 64)),
        solids: TileGrid { tiles: solids, stride: 8 },
        bg: TileGrid { tiles: vec!['0'; 64], stride: 8 },
        object_tiles: TileGrid { tiles: vec![-1; 64], stride: 8 },
        entities: vec![MapEntity {
            id: 5,
            name: "e".to_string(),
            x: 16,
            y: 16,
            width: 8,
            height: 8,
            nodes: vec![],
            attributes: vec![],
        }],
        triggers: vec![],
        fg_decals: vec![],
        bg_decals: vec![],
    }
}

fn rect(x: i32, y: i32, w: i32, h: i32) -> RoomRect {
    RoomRect::new(RoomPoint::new(x, y), RoomSize::new(w, h))
}

fn scene(layer: Layer, selected: Vec<AppSelection>, rects: Vec<Vec<RoomRect>>) -> SelectionScene {
    let n = selected.len();
    SelectionScene {
        layer,
        selected,
        fg_decals: vec![],
        entities: vec![(AppSelection::EntityBody(5, false), vec![rect(16, 16, 8, 8)])],
        triggers: vec![],
        bg_decals: vec![],
        rects,
        resizable: vec![(true, true); n],
    }
}

fn pt(x: i32, y: i32) -> RoomPoint {
    RoomPoint::new(x, y)
}

#[test]
fn a_box_selects_what_it_covers() {
    let r = room();
    let sc = scene(Layer::Entities, vec![], vec![]);
    let mut ids = IdCounter::new();
    let mut tool = SelectionTool::new();
    let down = SelectionToolEvent::MouseDown { pos: pt(0, 0), unsnapped: pt(1, 1), under: None, shift: false };
    let out = selection_tool_step(&mut tool, down, &r, &sc, &mut ids);
    assert!(matches!(out.as_slice(), [SelectionToolOutput::ClearSelection]));
    assert!(matches!(tool.status, SelectionStatus::Selecting(p) if p.x == 0 && p.y == 0));
    let out = selection_tool_step(&mut tool, SelectionToolEvent::MouseMove(pt(20, 20)), &r, &sc, &mut ids);
    assert!(out.is_empty());
    assert!(matches!(tool.pending.as_slice(), [AppSelection::EntityBody(5, false)]));
    let out = selection_tool_step(&mut tool, SelectionToolEvent::MouseUp, &r, &sc, &mut ids);
    assert!(matches!(out.as_slice(), [SelectionToolOutput::SelectObjects(v)] if matches!(v.as_slice(), [AppSelection::EntityBody(5, false)])));
    assert!(tool.pending.is_empty());
    assert!(matches!(tool.status, SelectionStatus::Idle));
    assert_eq!(tool.draw_phase, 0);
}

#[test]
fn shift_press_keeps_the_selection() {
    let r = room();
    let sc = scene(Layer::Entities, vec![], vec![]);
    let mut ids = IdCounter::new();
    let mut tool = SelectionTool::new();
    let under = Some(AppSelection::EntityBody(5, false));
    let down = SelectionToolEvent::MouseDown { pos: pt(16, 16), unsnapped: pt(17, 17), under, shift: true };
    let out = selection_tool_step(&mut tool, down, &r, &sc, &mut ids);
    assert!(out.is_empty());
    assert!(matches!(tool.pending.as_slice(), [AppSelection::EntityBody(5, false)]));
}

#[test]
fn pressing_the_selection_drags_it() {
    let r = room();
    let sel = vec![AppSelection::EntityBody(5, false), AppSelection::FgTile(TilePoint::new(1, 0))];
    let sc = scene(Layer::All, sel, vec![vec![rect(16, 16, 8, 8)], vec![rect(8, 0, 8, 8)]]);
    let mut ids = IdCounter::new();
    let mut tool = SelectionTool::new();
    let under = Some(AppSelection::EntityBody(5, false));
    let down = SelectionToolEvent::MouseDown { pos: pt(16, 16), unsnapped: pt(20, 20), under, shift: false };
    let out = selection_tool_step(&mut tool, down, &r, &sc, &mut ids);
    assert!(out.is_empty());
    assert_eq!(tool.draw_phase, 1);
    let out = selection_tool_step(&mut tool, SelectionToolEvent::MouseMove(pt(24, 8)), &r, &sc, &mut ids);
    assert_eq!(out.len(), 2);
    match &out[0] {
        SelectionToolOutput::Lift(f, edits, lifted) => {
            let (o, g) = f.fg.as_ref().unwrap();
            assert_eq!((o.x, o.y), (1, 0));
            assert_eq!(g.tiles, vec!['1']);
            assert!(matches!(edits.as_slice(), [RoomAction::TileUpdate { fg: true, .. }]));
            assert_eq!(lifted.len(), 1);
        }
        _ => panic!("expected a lift"),
    }
    assert!(matches!(&out[1], SelectionToolOutput::Drag(es)
        if matches!(es.as_slice(), [NudgeEdit::Entity { id: 5, trigger: false, x: 24, y: 8, .. }])));
    match &tool.status {
        SelectionStatus::Dragging(p, starts) => {
            assert_eq!((p.x, p.y), (16, 16));
            assert_eq!(starts.len(), 2);
            assert!(matches!(starts[0], Some(q) if q.x == 16 && q.y == 16));
            assert!(starts[1].is_none());
        }
        _ => panic!("expected a drag"),
    }
    let out = selection_tool_step(&mut tool, SelectionToolEvent::MouseMove(pt(0, 0)), &r, &sc, &mut ids);
    assert!(matches!(out.as_slice(), [SelectionToolOutput::Drag(es)]
        if matches!(es.as_slice(), [NudgeEdit::Entity { id: 5, x: 0, y: 0, .. }])));
}

#[test]
fn pressing_an_edge_resizes() {
    let r = room();
    let sel = vec![AppSelection::EntityBody(5, false)];
    let sc = scene(Layer::Entities, sel, vec![vec![rect(16, 16, 8, 8)]]);
    let mut ids = IdCounter::new();
    let mut tool = SelectionTool::new();
    let under = Some(AppSelection::EntityBody(5, false));
    let down = SelectionToolEvent::MouseDown { pos: pt(16, 16), unsnapped: pt(23, 20), under, shift: false };
    selection_tool_step(&mut tool, down, &r, &sc, &mut ids);
    let out = selection_tool_step(&mut tool, SelectionToolEvent::MouseMove(pt(24, 16)), &r, &sc, &mut ids);
    assert_eq!(out.len(), 2);
    assert!(matches!(out[1], SelectionToolOutput::Resize(v, ResizeSide::Right) if v.x == 8 && v.y == 0));
    assert!(matches!(tool.status, SelectionStatus::Resizing(_, ResizeSide::Right)));
}

#[test]
fn keys_nudge_cut_and_delete() {
    let r = room();
    let sel = vec![AppSelection::EntityBody(5, false)];
    let sc = scene(Layer::Entities, sel, vec![vec![rect(16, 16, 8, 8)]]);
    let mut ids = IdCounter::new();
    let mut tool = SelectionTool::new();
    let out = selection_tool_step(&mut tool, SelectionToolEvent::Key(ToolKey::Left, false), &r, &sc, &mut ids);
    assert!(matches!(out.as_slice(), [SelectionToolOutput::Lift(..), SelectionToolOutput::Nudge(es, 0)]
        if matches!(es.as_slice(), [NudgeEdit::Entity { id: 5, x: 8, y: 16, .. }])));
    assert_eq!(tool.draw_phase, 1);
    let out = selection_tool_step(&mut tool, SelectionToolEvent::Key(ToolKey::Other, false), &r, &sc, &mut ids);
    assert!(out.is_empty());
    assert_eq!(tool.draw_phase, 1);
    let out = selection_tool_step(&mut tool, SelectionToolEvent::Key(ToolKey::Delete, false), &r, &sc, &mut ids);
    assert_eq!(tool.draw_phase, 3);
    match out.as_slice() {
        [SelectionToolOutput::Delete(edits)] => {
            assert!(matches!(edits.last(), Some(SelectionEdit::ClearSelection)));
            assert_eq!(edits.len(), 6);
        }
        _ => panic!("expected a delete"),
    }
    let out = selection_tool_step(&mut tool, SelectionToolEvent::Key(ToolKey::X, true), &r, &sc, &mut ids);
    assert!(matches!(out.as_slice(), [SelectionToolOutput::Copy, SelectionToolOutput::Delete(_)]));
    let out = selection_tool_step(&mut tool, SelectionToolEvent::Key(ToolKey::A, true), &r, &sc, &mut ids);
    assert!(matches!(out.as_slice(), [SelectionToolOutput::SelectObjects(v)] if v.len() == 1));
}

#[test]
fn keys_do_nothing_mid_gesture() {
    let r = room();
    let sc = scene(Layer::Entities, vec![], vec![]);
    let mut ids = IdCounter::new();
    let mut tool = SelectionTool::new();
    let down = SelectionToolEvent::MouseDown { pos: pt(0, 0), unsnapped: pt(0, 0), under: None, shift: true };
    selection_tool_step(&mut tool, down, &r, &sc, &mut ids);
    let out = selection_tool_step(&mut tool, SelectionToolEvent::Key(ToolKey::Delete, false), &r, &sc, &mut ids);
    assert!(out.is_empty());
    assert_eq!(tool.draw_phase, 0);
}
