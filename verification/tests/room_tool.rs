use arborio::room_tool::{room_tool_step, RoomTool, RoomToolEvent, RoomToolOutput, RoomToolStatus, ToolKey};
use arborio::rooms::ResizeSide;
use arborio::units::{MapPointStrict, MapRectStrict, MapSizeStrict};
use arborio::uuid::IdCounter;

fn rect(x: i32, y: i32, w: i32, h: i32) -> MapRectStrict {
    MapRectStrict::new(MapPointStrict::new(x, y), MapSizeStrict::new(w, h))
}

fn pt(x: i32, y: i32) -> MapPointStrict {
    MapPointStrict::new(x, y)
}

fn two_rooms() -> Vec<MapRectStrict> {
    vec![rect(0, 0, 320, 184), rect(400, 0, 320, 184)]
}

fn is_rect(r: &MapRectStrict, x: i32, y: i32, w: i32, h: i32) -> bool {
    r.origin.x == x && r.origin.y == y && r.size.width == w && r.size.height == h
}

#[test]
fn arrow_key_nudges_selection_by_a_tile() {
    let bounds = two_rooms();
    let mut ids = IdCounter::new();
    let mut tool = RoomTool::new(0);
    let out = room_tool_step(&mut tool, RoomToolEvent::Key(ToolKey::Right, false), &bounds, &mut ids);
    assert_eq!(out.len(), 1);
    match &out[0] {
        RoomToolOutput::MoveRooms(phase, moves) => {
            assert_eq!(*phase, 1);
            assert_eq!(moves.len(), 1);
            assert_eq!(moves[0].0, 0);
            assert!(is_rect(&moves[0].1, 8, 0, 320, 184));
        }
        other => panic!("unexpected output {:?}", other),
    }
    assert_eq!(tool.draw_phase, 1);
    let up = room_tool_step(&mut tool, RoomToolEvent::Key(ToolKey::Up, false), &bounds, &mut ids);
    match &up[0] {
        RoomToolOutput::MoveRooms(phase, moves) => {
            assert_eq!(*phase, 2);
            assert!(is_rect(&moves[0].1, 0, -8, 320, 184));
        }
        other => panic!("unexpected output {:?}", other),
    }
}

#[test]
fn click_on_other_room_selects_it_on_release() {
    let bounds = two_rooms();
    let mut ids = IdCounter::new();
    let mut tool = RoomTool::new(0);
    let out = room_tool_step(&mut tool, RoomToolEvent::MouseDownLeft(pt(500, 50), false), &bounds, &mut ids);
    assert!(out.is_empty());
    assert!(matches!(tool.status, RoomToolStatus::Selecting(p) if p.x == 496 && p.y == 48));
    assert_eq!(tool.pending, vec![1]);
    assert!(tool.current.is_empty());
    let out = room_tool_step(&mut tool, RoomToolEvent::MouseUp(pt(500, 50)), &bounds, &mut ids);
    assert_eq!(tool.current, vec![1]);
    assert!(tool.pending.is_empty());
    assert!(matches!(tool.status, RoomToolStatus::Idle));
    assert_eq!(out.len(), 1);
    assert!(matches!(out[0], RoomToolOutput::SelectRoom(1)));
}

#[test]
fn shift_click_keeps_selection_and_box_covers_rooms() {
    let bounds = two_rooms();
    let mut ids = IdCounter::new();
    let mut tool = RoomTool::new(0);
    room_tool_step(&mut tool, RoomToolEvent::MouseDownLeft(pt(-13, 300), true), &bounds, &mut ids);
    assert!(matches!(tool.status, RoomToolStatus::Selecting(p) if p.x == -8 && p.y == 296));
    assert_eq!(tool.current, vec![0]);
    assert!(tool.pending.is_empty());
    room_tool_step(&mut tool, RoomToolEvent::MouseMove(pt(450, 100)), &bounds, &mut ids);
    assert_eq!(tool.pending, vec![0, 1]);
    let out = room_tool_step(&mut tool, RoomToolEvent::MouseUp(pt(450, 100)), &bounds, &mut ids);
    assert_eq!(tool.current, vec![0, 1]);
    assert!(out.is_empty());
}

#[test]
fn press_inside_selected_room_drags_it() {
    let bounds = two_rooms();
    let mut ids = IdCounter::new();
    let mut tool = RoomTool::new(0);
    room_tool_step(&mut tool, RoomToolEvent::MouseDownLeft(pt(100, 100), false), &bounds, &mut ids);
    assert!(matches!(tool.status, RoomToolStatus::CouldStartDragging(p, q)
        if p.x == 96 && p.y == 96 && q.x == 100 && q.y == 100));
    let out = room_tool_step(&mut tool, RoomToolEvent::MouseMove(pt(120, 90)), &bounds, &mut ids);
    assert_eq!(out.len(), 1);
    match &out[0] {
        RoomToolOutput::MoveRooms(phase, moves) => {
            assert_eq!(*phase, 1);
            assert_eq!(moves[0].0, 0);
            assert!(is_rect(&moves[0].1, 24, -8, 320, 184));
        }
        other => panic!("unexpected output {:?}", other),
    }
    let out = room_tool_step(&mut tool, RoomToolEvent::MouseUp(pt(120, 90)), &bounds, &mut ids);
    assert!(out.is_empty());
    assert!(matches!(tool.status, RoomToolStatus::Idle));
}

#[test]
fn press_on_edge_of_selected_room_resizes_it() {
    let bounds = two_rooms();
    let mut ids = IdCounter::new();
    let mut tool = RoomTool::new(1);
    room_tool_step(&mut tool, RoomToolEvent::MouseDownLeft(pt(401, 50), false), &bounds, &mut ids);
    let out = room_tool_step(&mut tool, RoomToolEvent::MouseMove(pt(380, 50)), &bounds, &mut ids);
    assert!(out.is_empty());
    assert!(matches!(tool.status, RoomToolStatus::Resizing(_, _, ResizeSide::Left)));
    let out = room_tool_step(&mut tool, RoomToolEvent::MouseUp(pt(380, 50)), &bounds, &mut ids);
    assert_eq!(out.len(), 1);
    match &out[0] {
        RoomToolOutput::MoveRooms(phase, moves) => {
            assert_eq!(*phase, 1);
            assert_eq!(moves[0].0, 1);
            assert!(is_rect(&moves[0].1, 376, 0, 344, 184));
        }
        other => panic!("unexpected output {:?}", other),
    }
}

#[test]
fn right_click_adds_a_room_and_drags_it() {
    let bounds = two_rooms();
    let mut ids = IdCounter::new();
    let mut tool = RoomTool::new(0);
    let out = room_tool_step(&mut tool, RoomToolEvent::MouseDownRight(pt(1000, 1001)), &bounds, &mut ids);
    assert_eq!(out.len(), 2);
    assert!(matches!(out[0], RoomToolOutput::SelectRoom(2)));
    assert!(matches!(out[1], RoomToolOutput::AddRoom(2, p) if p.x == 1000 && p.y == 1000));
    assert_eq!(tool.current, vec![2]);
    assert_eq!(tool.draw_phase, 1);
    assert!(matches!(tool.status, RoomToolStatus::Dragging(p, _) if p.x == 1000 && p.y == 1000));
}

#[test]
fn select_all_then_delete_under_one_phase() {
    let bounds = two_rooms();
    let mut ids = IdCounter::new();
    let mut tool = RoomTool::new(0);
    room_tool_step(&mut tool, RoomToolEvent::Key(ToolKey::A, true), &bounds, &mut ids);
    assert_eq!(tool.current, vec![0, 1]);
    let out = room_tool_step(&mut tool, RoomToolEvent::Key(ToolKey::Delete, false), &bounds, &mut ids);
    assert_eq!(out.len(), 2);
    assert!(matches!(out[0], RoomToolOutput::DeleteRoom(3, 0)));
    assert!(matches!(out[1], RoomToolOutput::DeleteRoom(3, 1)));
    assert_eq!(tool.draw_phase, 2);
}

#[test]
fn cut_copies_then_deletes_and_paste_clears_selection() {
    let bounds = two_rooms();
    let mut ids = IdCounter::new();
    let mut tool = RoomTool::new(1);
    let out = room_tool_step(&mut tool, RoomToolEvent::Key(ToolKey::X, true), &bounds, &mut ids);
    assert_eq!(out.len(), 2);
    assert!(matches!(&out[0], RoomToolOutput::CopyRooms(v) if *v == vec![1]));
    assert!(matches!(out[1], RoomToolOutput::DeleteRoom(2, 1)));
    let out = room_tool_step(&mut tool, RoomToolEvent::Key(ToolKey::V, true), &bounds, &mut ids);
    assert!(matches!(out[..], [RoomToolOutput::PasteRooms]));
    assert!(tool.current.is_empty());
    let out = room_tool_step(&mut tool, RoomToolEvent::Key(ToolKey::C, true), &bounds, &mut ids);
    assert!(out.is_empty());
}

#[test]
fn keys_are_ignored_during_a_gesture() {
    let bounds = two_rooms();
    let mut ids = IdCounter::new();
    let mut tool = RoomTool::new(0);
    room_tool_step(&mut tool, RoomToolEvent::MouseDownLeft(pt(100, 100), false), &bounds, &mut ids);
    let out = room_tool_step(&mut tool, RoomToolEvent::Key(ToolKey::Delete, false), &bounds, &mut ids);
    assert!(out.is_empty());
    assert_eq!(tool.draw_phase, 1);
    assert!(matches!(tool.status, RoomToolStatus::CouldStartDragging(..)));
}
