//! The selection tool's gestures: a box drawn to select, a press on the
//! selection that drags or resizes it, and the keys that nudge, select all,
//! copy, cut, paste and delete.
use vstd::prelude::*;
use crate::layer::Layer;
use crate::lift::{delete_all, deletes_selection, float_tiles, lifts, tiles_fit, SelectionEdit};
use crate::resize::{selection_resize_side, selection_side};
use crate::room::{Room, RoomAction};
use crate::room_tool::{ToolKey, id_after};
use crate::rooms::ResizeSide;
use crate::select_area::{area_selection, selectables_in};
use crate::selection::AppSelection;
use crate::tiles::LevelFloatState;
use crate::units::{Point2D, Rect, TilePoint, TileSpace, RoomPoint, RoomRect, RoomSize, RoomSpace, RoomVector, Size2D, Vector2D, fits_i32};
use crate::nudge::{NudgeEdit, drag_starts, no_starts, none_starts, nudge_fits, nudge_selection, nudges, starts_of};
use crate::uuid::IdCounter;

verus! {

/// What the selection tool is in the middle of.
#[derive(Debug)]
pub enum SelectionStatus {
    Idle,
    /// A selection box dragged from this point.
    Selecting(RoomPoint),
    /// A press on the selection at this point, snapped and unsnapped.
    CouldStartDragging(RoomPoint, RoomPoint),
    /// The selection dragged from this point; where each selected item
    /// stood when the drag began.
    Dragging(RoomPoint, Vec<Option<RoomPoint>>),
    /// This side of the selection dragged from this point.
    Resizing(RoomPoint, ResizeSide),
}

/// The selection tool: what a selection box covers, the gesture under way
/// and the phase its edits are grouped under.
#[derive(Debug)]
pub struct SelectionTool {
    pub pending: Vec<AppSelection>,
    pub status: SelectionStatus,
    pub draw_phase: u32,
}

/// What the editor shows of the current room for one input: the layer
/// worked on, the tab's selection, the candidates of an area selection with
/// their hitboxes, and, item by item of the selection, its hitboxes and
/// whether it can be resized across and down.
pub struct SelectionScene {
    pub layer: Layer,
    pub selected: Vec<AppSelection>,
    pub fg_decals: Vec<(AppSelection, Vec<RoomRect>)>,
    pub entities: Vec<(AppSelection, Vec<RoomRect>)>,
    pub triggers: Vec<(AppSelection, Vec<RoomRect>)>,
    pub bg_decals: Vec<(AppSelection, Vec<RoomRect>)>,
    pub rects: Vec<Vec<RoomRect>>,
    pub resizable: Vec<(bool, bool)>,
}

impl SelectionScene {
    /// One entry of hitboxes and of resizability per selected item.
    pub open spec fn wf(&self) -> bool {
        &&& self.rects@.len() == self.selected@.len()
        &&& self.resizable@.len() == self.selected@.len()
    }
}

/// An input to the selection tool, in room pixels. A press carries the
/// point snapped and unsnapped, the selectable under the unsnapped point if
/// there is one, and whether Shift is held. `Key` carries whether Ctrl alone
/// is held; `V` with Ctrl stands for a paste whose clipboard could be read.
#[derive(Clone, Copy, Debug)]
pub enum SelectionToolEvent {
    MouseUp,
    MouseDown { pos: RoomPoint, unsnapped: RoomPoint, under: Option<AppSelection>, shift: bool },
    MouseMove(RoomPoint),
    Key(ToolKey, bool),
}

/// What the selection tool asks of the editor, in order.
#[derive(Debug)]
pub enum SelectionToolOutput {
    /// Make these the tab's selection.
    SelectObjects(Vec<AppSelection>),
    /// Empty the selection and lay the lifted tiles back into the room.
    ClearSelection,
    /// Lift the selected tiles: the floats they make, the edits that empty
    /// them in the room, and the selections that were lifted.
    Lift(LevelFloatState, Vec<RoomAction>, Vec<AppSelection>),
    /// Move the selection with these edits, each item as far from where it
    /// stood when the drag began as the pointer has gone.
    Drag(Vec<NudgeEdit>),
    /// Move the selection with these edits, by a step from where it is;
    /// where that asks for no edit, the tool's phase goes back to the one
    /// given.
    Nudge(Vec<NudgeEdit>, u32),
    /// Resize the selection on this side this far from where the drag began.
    Resize(RoomVector, ResizeSide),
    /// Copy the selection to the clipboard.
    Copy,
    /// Paste the clipboard.
    Paste,
    /// Delete the selection with these edits.
    Delete(Vec<SelectionEdit>),
}

/// Whether `v` goes from `from` to `to`.
pub open spec fn spans(v: RoomVector, from: RoomPoint, to: RoomPoint) -> bool {
    v.x == to.x - from.x && v.y == to.y - from.y
}

/// Whether the step from `from` to `to` fits in `i32`.
pub open spec fn step_in_range(from: RoomPoint, to: RoomPoint) -> bool {
    fits_i32(to.x - from.x) && fits_i32(to.y - from.y)
}

/// The box dragged from `from` to `to`, its size taken with its sign.
pub open spec fn dragged_box(from: RoomPoint, to: RoomPoint) -> RoomRect {
    Rect { origin: from, size: Size2D { width: (to.x - from.x) as i32, height: (to.y - from.y) as i32, unit: RoomSpace } }
}

/// The box that a select-all takes in.
pub open spec fn whole_box() -> RoomRect {
    Rect {
        origin: Point2D { x: -1000000i32, y: -1000000i32, unit: RoomSpace },
        size: Size2D { width: 2000000i32, height: 2000000i32, unit: RoomSpace },
    }
}

/// What the scene's area selection of `rect` takes in.
pub open spec fn area_of(room: Room, sc: SelectionScene, rect: RoomRect) -> Seq<AppSelection> {
    area_selection(room, sc.layer, rect, sc.fg_decals@, sc.entities@, sc.triggers@, sc.bg_decals@)
}

/// Whether the tool is unchanged from `t0` to `t1`.
pub open spec fn unchanged(t0: SelectionTool, t1: SelectionTool) -> bool {
    &&& t1.pending@ == t0.pending@
    &&& t1.status == t0.status
    &&& t1.draw_phase == t0.draw_phase
}

/// A release: a selection box confirms what it covers; any gesture ends.
pub open spec fn on_up(t0: SelectionTool, t1: SelectionTool, out: Seq<SelectionToolOutput>) -> bool {
    &&& t1.status == SelectionStatus::Idle
    &&& t1.draw_phase == t0.draw_phase
    &&& if t0.status is Selecting {
        &&& out.len() == 1
        &&& out[0] matches SelectionToolOutput::SelectObjects(v) && v@ == t0.pending@
        &&& t1.pending@.len() == 0
    } else {
        &&& out.len() == 0
        &&& t1.pending@ == t0.pending@
    }
}

/// A press when idle: on a selected item it may start a drag under a fresh
/// phase; elsewhere it starts a selection box holding the item under the
/// pointer, and without Shift empties the selection.
pub open spec fn on_down(
    t0: SelectionTool, pos: RoomPoint, unsnapped: RoomPoint, under: Option<AppSelection>, shift: bool,
    sc: SelectionScene, ids0: u32, t1: SelectionTool, ids1: u32, out: Seq<SelectionToolOutput>,
) -> bool {
    if !(t0.status is Idle) {
        unchanged(t0, t1) && ids1 == ids0 && out.len() == 0
    } else if under matches Some(g) && sc.selected@.contains(g) {
        &&& t1.status == SelectionStatus::CouldStartDragging(pos, unsnapped)
        &&& t1.draw_phase == ids0
        &&& ids1 == id_after(ids0)
        &&& t1.pending@ == t0.pending@
        &&& out.len() == 0
    } else {
        &&& t1.status == SelectionStatus::Selecting(pos)
        &&& t1.draw_phase == t0.draw_phase
        &&& ids1 == ids0
        &&& t1.pending@ == (match under { Some(g) => seq![g], None => t0.pending@ })
        &&& out == (if shift { Seq::<SelectionToolOutput>::empty() } else { seq![SelectionToolOutput::ClearSelection] })
    }
}

/// The step from `from` to `to`.
pub open spec fn step_vec(from: RoomPoint, to: RoomPoint) -> RoomVector {
    Vector2D { x: (to.x - from.x) as i32, y: (to.y - from.y) as i32, unit: RoomSpace }
}

/// The drag or resize that a move to `pos` asks for, as the last output.
pub open spec fn follows(room: Room, sc: SelectionScene, status: SelectionStatus, pos: RoomPoint, o: SelectionToolOutput) -> bool {
    match status {
        SelectionStatus::Dragging(r, st) => o matches SelectionToolOutput::Drag(es)
            && nudges(room, sc.selected@, st@, step_vec(r, pos), es@),
        SelectionStatus::Resizing(r, s) => o matches SelectionToolOutput::Resize(v, s2) && spans(v, r, pos) && s2 == s,
        _ => false,
    }
}

/// A move: a press on the selection turns into a resize where the press
/// grabbed a side that the whole selection can be resized on, else into a
/// drag, lifting the selected tiles first; a selection box takes in what it
/// covers; a drag or resize follows the pointer.
pub open spec fn on_move(
    t0: SelectionTool, pos: RoomPoint, room: Room, sc: SelectionScene, t1: SelectionTool, out: Seq<SelectionToolOutput>,
) -> bool {
    &&& t1.draw_phase == t0.draw_phase
    &&& match t0.status {
        SelectionStatus::Idle => unchanged(t0, t1) && out.len() == 0,
        SelectionStatus::Selecting(r) => {
            &&& t1.status == t0.status
            &&& t1.pending@ == area_of(room, sc, dragged_box(r, pos))
            &&& out.len() == 0
        },
        SelectionStatus::CouldStartDragging(r, un) => {
            let side = selection_side(sc.selected@, sc.rects@, sc.resizable@, un);
            &&& if side != ResizeSide::NoSide {
                t1.status == SelectionStatus::Resizing(r, side)
            } else {
                t1.status matches SelectionStatus::Dragging(r2, st) && r2 == r && starts_of(room, sc.selected@, st@)
            }
            &&& t1.pending@ == t0.pending@
            &&& out.len() == 2
            &&& out[0] matches SelectionToolOutput::Lift(f, e, l) && lifts(room, sc.selected@, f, e@, l@)
            &&& follows(room, sc, t1.status, pos, out[1])
        },
        _ => {
            &&& t1.status == t0.status
            &&& t1.pending@ == t0.pending@
            &&& out.len() == 1
            &&& follows(room, sc, t1.status, pos, out[0])
        },
    }
}

/// The step an arrow key nudges by, if `key` is one.
pub open spec fn arrow_step(key: ToolKey) -> Option<RoomVector> {
    match key {
        ToolKey::Down => Some(Vector2D { x: 0i32, y: 8i32, unit: RoomSpace }),
        ToolKey::Up => Some(Vector2D { x: 0i32, y: -8i32, unit: RoomSpace }),
        ToolKey::Right => Some(Vector2D { x: 8i32, y: 0i32, unit: RoomSpace }),
        ToolKey::Left => Some(Vector2D { x: -8i32, y: 0i32, unit: RoomSpace }),
        _ => None,
    }
}

/// A key when idle takes a fresh phase and nudges, selects all, copies,
/// cuts, pastes or deletes; a key that asks for nothing keeps the old phase.
pub open spec fn on_key(
    t0: SelectionTool, key: ToolKey, ctrl: bool, room: Room, sc: SelectionScene,
    ids0: u32, t1: SelectionTool, ids1: u32, out: Seq<SelectionToolOutput>,
) -> bool {
    if !(t0.status is Idle) {
        unchanged(t0, t1) && ids1 == ids0 && out.len() == 0
    } else {
        &&& t1.status == t0.status
        &&& ids1 == id_after(ids0)
        &&& t1.pending@ == (if key == ToolKey::A && ctrl { Seq::empty() } else { t0.pending@ })
        &&& match arrow_step(key) {
            Some(d) => {
                &&& t1.draw_phase == ids0
                &&& out.len() == 2
                &&& out[0] matches SelectionToolOutput::Lift(f, e, l) && lifts(room, sc.selected@, f, e@, l@)
                &&& out[1] matches SelectionToolOutput::Nudge(es, p) && p == t0.draw_phase
                    && nudges(room, sc.selected@, no_starts(sc.selected@.len()), d, es@)
            },
            None => if key == ToolKey::A && ctrl {
                &&& t1.draw_phase == ids0
                &&& out.len() == 1
                &&& out[0] matches SelectionToolOutput::SelectObjects(v) && v@ == area_of(room, sc, whole_box())
            } else if key == ToolKey::C && ctrl {
                t1.draw_phase == ids0 && out == seq![SelectionToolOutput::Copy]
            } else if key == ToolKey::X && ctrl {
                &&& t1.draw_phase == ids0
                &&& out.len() == 2
                &&& out[0] == SelectionToolOutput::Copy
                &&& out[1] matches SelectionToolOutput::Delete(v) && deletes_selection(room, sc.selected@, v@)
            } else if key == ToolKey::V && ctrl {
                t1.draw_phase == ids0 && out == seq![SelectionToolOutput::Paste]
            } else if key == ToolKey::Delete {
                &&& t1.draw_phase == ids0
                &&& out.len() == 1
                &&& out[0] matches SelectionToolOutput::Delete(v) && deletes_selection(room, sc.selected@, v@)
            } else {
                t1.draw_phase == t0.draw_phase && out.len() == 0
            },
        }
    }
}

/// What one input does to the selection tool, the phase counter, and what
/// it asks of the editor.
pub open spec fn selection_tool_spec(
    t0: SelectionTool, ev: SelectionToolEvent, room: Room, sc: SelectionScene,
    ids0: u32, t1: SelectionTool, ids1: u32, out: Seq<SelectionToolOutput>,
) -> bool {
    match ev {
        SelectionToolEvent::MouseUp => on_up(t0, t1, out) && ids1 == ids0,
        SelectionToolEvent::MouseDown { pos, unsnapped, under, shift } =>
            on_down(t0, pos, unsnapped, under, shift, sc, ids0, t1, ids1, out),
        SelectionToolEvent::MouseMove(pos) => on_move(t0, pos, room, sc, t1, out) && ids1 == ids0,
        SelectionToolEvent::Key(key, ctrl) => on_key(t0, key, ctrl, room, sc, ids0, t1, ids1, out),
    }
}

/// Whether a step can be taken: its arithmetic stays in `i32`, the tiles
/// that a lift or a delete takes lie within the float bound, and what a
/// drag or nudge moves can be moved.
pub open spec fn selection_step_fits(t: SelectionTool, ev: SelectionToolEvent, room: Room, sc: SelectionScene) -> bool {
    match ev {
        SelectionToolEvent::MouseMove(pos) => match t.status {
            SelectionStatus::Idle => true,
            SelectionStatus::Selecting(r) => step_in_range(r, pos),
            SelectionStatus::CouldStartDragging(r, un) => {
                &&& step_in_range(r, pos)
                &&& tiles_fit(room, sc.selected@)
                &&& selection_side(sc.selected@, sc.rects@, sc.resizable@, un) == ResizeSide::NoSide ==>
                    forall|st: Seq<Option<RoomPoint>>| #[trigger] starts_of(room, sc.selected@, st)
                        ==> nudge_fits(room, sc.selected@, st, step_vec(r, pos))
            },
            SelectionStatus::Dragging(r, st) => step_in_range(r, pos) && nudge_fits(room, sc.selected@, st@, step_vec(r, pos)),
            SelectionStatus::Resizing(r, _) => step_in_range(r, pos),
        },
        SelectionToolEvent::Key(key, ctrl) => t.status is Idle ==> {
            &&& (key == ToolKey::Delete || (key == ToolKey::X && ctrl)) ==> tiles_fit(room, sc.selected@)
            &&& arrow_step(key) matches Some(d) ==> tiles_fit(room, sc.selected@)
                && nudge_fits(room, sc.selected@, no_starts(sc.selected@.len()), d)
        },
        _ => true,
    }
}

proof fn lemma_points_equal(p: TilePoint, q: TilePoint)
    ensures
        (p.x == q.x && p.y == q.y) == (p == q),
{
    let (u, w): (TileSpace, TileSpace) = (p.unit, q.unit);
    assert(u == w);
}

fn same_selection(a: &AppSelection, b: &AppSelection) -> (r: bool)
    ensures
        r == (*a == *b),
{
    match (a, b) {
        (AppSelection::FgTile(p), AppSelection::FgTile(q)) => {
            proof {
                lemma_points_equal(*p, *q);
            }
            p.x == q.x && p.y == q.y
        },
        (AppSelection::BgTile(p), AppSelection::BgTile(q)) => {
            proof {
                lemma_points_equal(*p, *q);
            }
            p.x == q.x && p.y == q.y
        },
        (AppSelection::ObjectTile(p), AppSelection::ObjectTile(q)) => {
            proof {
                lemma_points_equal(*p, *q);
            }
            p.x == q.x && p.y == q.y
        },
        (AppSelection::FgFloat, AppSelection::FgFloat) => true,
        (AppSelection::BgFloat, AppSelection::BgFloat) => true,
        (AppSelection::ObjFloat, AppSelection::ObjFloat) => true,
        (AppSelection::EntityBody(i, t), AppSelection::EntityBody(j, u)) => *i == *j && *t == *u,
        (AppSelection::EntityNode(i, n, t), AppSelection::EntityNode(j, m, u)) => *i == *j && *n == *m && *t == *u,
        (AppSelection::Decal(i, f), AppSelection::Decal(j, g)) => *i == *j && *f == *g,
        _ => false,
    }
}

fn selection_holds(sel: &Vec<AppSelection>, x: &AppSelection) -> (r: bool)
    ensures
        r == sel@.contains(*x),
{
    let mut k: usize = 0;
    while k < sel.len()
        invariant
            k <= sel@.len(),
            forall|j: int| 0 <= j < k ==> sel@[j] != *x,
        decreases sel@.len() - k,
    {
        if same_selection(&sel[k], x) {
            return true;
        }
        k = k + 1;
    }
    false
}

fn step_vector(from: RoomPoint, to: RoomPoint) -> (v: RoomVector)
    requires
        step_in_range(from, to),
    ensures
        v == step_vec(from, to),
{
    let v = RoomVector::new(to.x - from.x, to.y - from.y);
    proof {
        assert(v.unit == RoomSpace);
    }
    v
}

fn step_between(from: RoomPoint, to: RoomPoint) -> (v: RoomVector)
    requires
        step_in_range(from, to),
    ensures
        spans(v, from, to),
{
    RoomVector::new(to.x - from.x, to.y - from.y)
}

impl SelectionTool {
    /// An idle tool with nothing pending, under no phase.
    pub fn new() -> (r: Self)
        ensures
            r.pending@.len() == 0,
            r.status == SelectionStatus::Idle,
            r.draw_phase == 0,
    {
        SelectionTool { pending: Vec::new(), status: SelectionStatus::Idle, draw_phase: 0 }
    }

    fn is_idle(&self) -> (r: bool)
        ensures
            r == (self.status is Idle),
    {
        match self.status {
            SelectionStatus::Idle => true,
            _ => false,
        }
    }

    fn mouse_up(&mut self) -> (out: Vec<SelectionToolOutput>)
        ensures
            on_up(*old(self), *final(self), out@),
    {
        let mut out: Vec<SelectionToolOutput> = Vec::new();
        if let SelectionStatus::Selecting(_) = self.status {
            let mut taken: Vec<AppSelection> = Vec::new();
            std::mem::swap(&mut taken, &mut self.pending);
            out.push(SelectionToolOutput::SelectObjects(taken));
        }
        self.status = SelectionStatus::Idle;
        out
    }

    fn mouse_down(
        &mut self,
        pos: RoomPoint,
        unsnapped: RoomPoint,
        under: Option<AppSelection>,
        shift: bool,
        sc: &SelectionScene,
        ids: &mut IdCounter,
    ) -> (out: Vec<SelectionToolOutput>)
        ensures
            on_down(*old(self), pos, unsnapped, under, shift, *sc, old(ids)@, *final(self), final(ids)@, out@),
    {
        let mut out: Vec<SelectionToolOutput> = Vec::new();
        if !self.is_idle() {
            return out;
        }
        let grabbed = match under {
            Some(g) => selection_holds(&sc.selected, &g),
            None => false,
        };
        if grabbed {
            self.draw_phase = ids.next_uuid();
            self.status = SelectionStatus::CouldStartDragging(pos, unsnapped);
        } else {
            self.status = SelectionStatus::Selecting(pos);
            if let Some(g) = under {
                let mut one: Vec<AppSelection> = Vec::new();
                one.push(g);
                self.pending = one;
            }
            if !shift {
                out.push(SelectionToolOutput::ClearSelection);
            }
        }
        proof {
            if !grabbed && !shift {
                assert(out@ =~= seq![SelectionToolOutput::ClearSelection]);
            }
        }
        out
    }

    fn mouse_move(&mut self, pos: RoomPoint, room: &Room, sc: &SelectionScene) -> (out: Vec<SelectionToolOutput>)
        requires
            sc.wf(),
            selection_step_fits(*old(self), SelectionToolEvent::MouseMove(pos), *room, *sc),
        ensures
            on_move(*old(self), pos, *room, *sc, *final(self), out@),
    {
        let mut out: Vec<SelectionToolOutput> = Vec::new();
        let mut status = SelectionStatus::Idle;
        std::mem::swap(&mut status, &mut self.status);
        match status {
            SelectionStatus::Idle => {},
            SelectionStatus::Selecting(r) => {
                let v = step_between(r, pos);
                let area = RoomRect::new(r, RoomSize::new(v.x, v.y));
                proof {
                    assert(area.origin == r);
                    assert(area.size.width == (pos.x - r.x) as i32);
                    assert(area.size.height == (pos.y - r.y) as i32);
                    assert(area.size.unit == RoomSpace);
                    assert(area == dragged_box(r, pos));
                }
                self.pending = selectables_in(room, sc.layer, area, &sc.fg_decals, &sc.entities, &sc.triggers, &sc.bg_decals);
                self.status = SelectionStatus::Selecting(r);
            },
            SelectionStatus::CouldStartDragging(r, un) => {
                let (floats, edits, taken) = float_tiles(room, &sc.selected);
                out.push(SelectionToolOutput::Lift(floats, edits, taken));
                let side = selection_resize_side(&sc.selected, &sc.rects, &sc.resizable, un);
                if side != ResizeSide::NoSide {
                    self.status = SelectionStatus::Resizing(r, side);
                    out.push(SelectionToolOutput::Resize(step_between(r, pos), side));
                } else {
                    let starts = drag_starts(room, &sc.selected);
                    let v = step_vector(r, pos);
                    let es = nudge_selection(room, &sc.selected, &starts, v);
                    self.status = SelectionStatus::Dragging(r, starts);
                    out.push(SelectionToolOutput::Drag(es));
                }
            },
            SelectionStatus::Dragging(r, starts) => {
                let v = step_vector(r, pos);
                let es = nudge_selection(room, &sc.selected, &starts, v);
                self.status = SelectionStatus::Dragging(r, starts);
                out.push(SelectionToolOutput::Drag(es));
            },
            SelectionStatus::Resizing(r, side) => {
                self.status = SelectionStatus::Resizing(r, side);
                out.push(SelectionToolOutput::Resize(step_between(r, pos), side));
            },
        }
        out
    }

    fn key(&mut self, key: ToolKey, ctrl: bool, room: &Room, sc: &SelectionScene, ids: &mut IdCounter)
        -> (out: Vec<SelectionToolOutput>)
        requires
            selection_step_fits(*old(self), SelectionToolEvent::Key(key, ctrl), *room, *sc),
        ensures
            on_key(*old(self), key, ctrl, *room, *sc, old(ids)@, *final(self), final(ids)@, out@),
    {
        let mut out: Vec<SelectionToolOutput> = Vec::new();
        if !self.is_idle() {
            return out;
        }
        let previous = self.draw_phase;
        self.draw_phase = ids.next_uuid();
        let arrow = key == ToolKey::Up || key == ToolKey::Down || key == ToolKey::Left || key == ToolKey::Right;
        if arrow {
            let (dx, dy): (i32, i32) = if key == ToolKey::Down { (0, 8) } else if key == ToolKey::Up { (0, -8) }
                else if key == ToolKey::Right { (8, 0) } else { (-8, 0) };
            let v = RoomVector::new(dx, dy);
            proof {
                assert(v.unit == RoomSpace);
                assert(arrow_step(key) == Some(v));
            }
            let (floats, edits, taken) = float_tiles(room, &sc.selected);
            out.push(SelectionToolOutput::Lift(floats, edits, taken));
            let starts = none_starts(sc.selected.len());
            out.push(SelectionToolOutput::Nudge(nudge_selection(room, &sc.selected, &starts, v), previous));
        } else if key == ToolKey::A && ctrl {
            let everything = RoomRect::new(RoomPoint::new(-1000000, -1000000), RoomSize::new(2000000, 2000000));
            proof {
                assert(everything.origin.unit == RoomSpace);
                assert(everything.size.unit == RoomSpace);
                assert(everything == whole_box());
            }
            self.pending = selectables_in(room, sc.layer, everything, &sc.fg_decals, &sc.entities, &sc.triggers, &sc.bg_decals);
            let mut taken: Vec<AppSelection> = Vec::new();
            std::mem::swap(&mut taken, &mut self.pending);
            out.push(SelectionToolOutput::SelectObjects(taken));
        } else if key == ToolKey::C && ctrl {
            out.push(SelectionToolOutput::Copy);
            proof {
                assert(out@ =~= seq![SelectionToolOutput::Copy]);
            }
        } else if key == ToolKey::X && ctrl {
            out.push(SelectionToolOutput::Copy);
            out.push(SelectionToolOutput::Delete(delete_all(room, &sc.selected)));
        } else if key == ToolKey::V && ctrl {
            out.push(SelectionToolOutput::Paste);
            proof {
                assert(out@ =~= seq![SelectionToolOutput::Paste]);
            }
        } else if key == ToolKey::Delete {
            out.push(SelectionToolOutput::Delete(delete_all(room, &sc.selected)));
        } else {
            self.draw_phase = previous;
        }
        out
    }
}

/// Handles one input to the selection tool, given the current room, what
/// the editor shows of it, and the counter that hands out edit phases.
pub fn selection_tool_step(
    tool: &mut SelectionTool,
    ev: SelectionToolEvent,
    room: &Room,
    sc: &SelectionScene,
    ids: &mut IdCounter,
) -> (out: Vec<SelectionToolOutput>)
    requires
        sc.wf(),
        selection_step_fits(*old(tool), ev, *room, *sc),
    ensures
        selection_tool_spec(*old(tool), ev, *room, *sc, old(ids)@, *final(tool), final(ids)@, out@),
{
    match ev {
        SelectionToolEvent::MouseUp => tool.mouse_up(),
        SelectionToolEvent::MouseDown { pos, unsnapped, under, shift } =>
            tool.mouse_down(pos, unsnapped, under, shift, sc, ids),
        SelectionToolEvent::MouseMove(pos) => tool.mouse_move(pos, room, sc),
        SelectionToolEvent::Key(key, ctrl) => tool.key(key, ctrl, room, sc, ids),
    }
}

} // verus!
