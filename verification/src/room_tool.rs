use vstd::prelude::*;
use crate::units::{
    MapPointStrict, MapRectStrict, MapSizeStrict, MapSpace, MapVectorStrict, Point2D, Rect, Size2D, Vector2D,
    div_toward_zero, fits_i32, spec_intersects, spec_contains,
};
use crate::rooms::{
    ResizeSide, corners, hit_indices, overlaps_area, unit_square, room_at, rooms_in, room_resize_side,
    resized_bounds, resize_fits, resize_vec_fits, spec_resized, spec_side_at,
};
use crate::uuid::IdCounter;

verus! {

/// The first index below `n` where `p` holds.
pub open spec fn first_where(n: nat, p: spec_fn(int) -> bool) -> Option<int>
    decreases n,
{
    if n == 0 {
        None
    } else {
        match first_where((n - 1) as nat, p) {
            Some(k) => Some(k),
            None => if p(n - 1) { Some(n - 1) } else { None },
        }
    }
}

pub proof fn lemma_first_where(n: nat, p: spec_fn(int) -> bool)
    ensures
        match first_where(n, p) {
            Some(k) => 0 <= k < n && p(k) && forall|j: int| 0 <= j < k ==> !#[trigger] p(j),
            None => forall|j: int| 0 <= j < n ==> !#[trigger] p(j),
        },
    decreases n,
{
    if n > 0 {
        lemma_first_where((n - 1) as nat, p);
    }
}

/// The rooms hit by a click at `pos`.
pub open spec fn clicked(bounds: Seq<MapRectStrict>, pos: MapPointStrict) -> spec_fn(int) -> bool {
    |j: int| spec_intersects(bounds[j], unit_square(pos))
}

/// The selected rooms, by position in the selection, that hold `pointer`.
pub open spec fn grabbed(bounds: Seq<MapRectStrict>, sel: Seq<usize>, pointer: MapPointStrict) -> spec_fn(int) -> bool {
    |k: int| sel[k] < bounds.len() && spec_contains(bounds[sel[k] as int], pointer)
}

/// The side of the selection that a press at `pointer` grabs.
pub open spec fn grab_side(bounds: Seq<MapRectStrict>, sel: Seq<usize>, pointer: MapPointStrict) -> ResizeSide {
    match first_where(sel.len(), grabbed(bounds, sel, pointer)) {
        Some(k) => spec_side_at(bounds[sel[k] as int], pointer),
        None => ResizeSide::NoSide,
    }
}

/// A map position snapped to the 8-pixel tile grid, rounding toward zero.
pub open spec fn snapped(p: MapPointStrict) -> (int, int) {
    (div_toward_zero(p.x as int, 8) * 8, div_toward_zero(p.y as int, 8) * 8)
}

/// The identifier after `x` from an `IdCounter`.
pub open spec fn id_after(x: u32) -> u32 {
    if x == u32::MAX { 0 } else { (x + 1) as u32 }
}

/// What the room tool is in the middle of.
#[derive(Debug)]
pub enum RoomToolStatus {
    Idle,
    /// A selection box dragged from this snapped point.
    Selecting(MapPointStrict),
    /// A press on a selected room, at this snapped and unsnapped point.
    CouldStartDragging(MapPointStrict, MapPointStrict),
    /// The selection dragged from this snapped point; the origin of each
    /// selected room, in selection order, when the drag began.
    Dragging(MapPointStrict, Vec<MapPointStrict>),
    /// A side of the selection dragged from this snapped point; the bounds of
    /// each selected room, in selection order, when the drag began.
    Resizing(MapPointStrict, Vec<MapRectStrict>, ResizeSide),
}

/// The room tool: the rooms a selection box covers, the selected rooms,
/// the gesture under way and the phase its edits are grouped under.
#[derive(Debug)]
pub struct RoomTool {
    pub pending: Vec<usize>,
    pub current: Vec<usize>,
    pub status: RoomToolStatus,
    pub draw_phase: u32,
}

/// A key the room tool reacts to.
#[derive(Clone, Copy, Debug, PartialEq, Eq, Structural)]
pub enum ToolKey {
    Up,
    Down,
    Left,
    Right,
    A,
    C,
    X,
    V,
    Delete,
    Other,
}

/// An input to the room tool, positions in unsnapped map pixels. `Key`
/// carries whether Ctrl alone is held; `V` with Ctrl stands for a paste
/// whose clipboard could be read.
#[derive(Clone, Copy, Debug)]
pub enum RoomToolEvent {
    MouseUp(MapPointStrict),
    MouseDownLeft(MapPointStrict, bool),
    MouseMove(MapPointStrict),
    MouseDownRight(MapPointStrict),
    Key(ToolKey, bool),
}

/// What the room tool asks of the editor.
#[derive(Debug)]
pub enum RoomToolOutput {
    /// Make this room the tab's current room.
    SelectRoom(usize),
    /// Move or resize rooms to new bounds, as one edit under the phase.
    MoveRooms(u32, Vec<(usize, MapRectStrict)>),
    /// Add a default room at this origin under its own phase.
    AddRoom(u32, MapPointStrict),
    /// Delete a room under the phase.
    DeleteRoom(u32, usize),
    /// Copy these rooms to the clipboard.
    CopyRooms(Vec<usize>),
    /// Paste the rooms on the clipboard.
    PasteRooms,
}

/// Whether `m` moves room `idx` to the rectangle at (`x`, `y`) of size `w` by `h`.
pub open spec fn moved_to(m: (usize, MapRectStrict), idx: usize, x: int, y: int, w: int, h: int) -> bool {
    &&& m.0 == idx
    &&& m.1.origin.x == x && m.1.origin.y == y
    &&& m.1.size.width == w && m.1.size.height == h
}

/// Each selected room moved to its base point plus (`dx`, `dy`), keeping its
/// present size.
pub open spec fn nudged(
    mv: Seq<(usize, MapRectStrict)>,
    sel: Seq<usize>,
    bases: Seq<MapPointStrict>,
    bounds: Seq<MapRectStrict>,
    dx: int,
    dy: int,
) -> bool {
    &&& mv.len() == sel.len()
    &&& forall|k: int| 0 <= k < mv.len() ==> moved_to(#[trigger] mv[k], sel[k], bases[k].x + dx,
        bases[k].y + dy, bounds[sel[k] as int].size.width as int, bounds[sel[k] as int].size.height as int)
}

/// Each selected room resized from its starting bounds by a drag of
/// (`dx`, `dy`) on `side`.
pub open spec fn resized(
    mv: Seq<(usize, MapRectStrict)>,
    sel: Seq<usize>,
    starts: Seq<MapRectStrict>,
    side: ResizeSide,
    d: MapVectorStrict,
) -> bool {
    &&& mv.len() == sel.len()
    &&& forall|k: int| 0 <= k < mv.len() ==> {
        let (x, y, w, h) = spec_resized(starts[k], Some(side), d);
        moved_to(#[trigger] mv[k], sel[k], x, y, w, h)
    }
}

/// The origins of the selected rooms.
pub open spec fn origins_of(bounds: Seq<MapRectStrict>, sel: Seq<usize>) -> Seq<MapPointStrict> {
    Seq::new(sel.len(), |k: int| bounds[sel[k] as int].origin)
}

/// The bounds of the selected rooms.
pub open spec fn bounds_of(bounds: Seq<MapRectStrict>, sel: Seq<usize>) -> Seq<MapRectStrict> {
    Seq::new(sel.len(), |k: int| bounds[sel[k] as int])
}

/// Whether the one output is a batch under `phase` that nudges the selection.
pub open spec fn is_nudge(
    out: Seq<RoomToolOutput>,
    phase: u32,
    sel: Seq<usize>,
    bases: Seq<MapPointStrict>,
    bounds: Seq<MapRectStrict>,
    dx: int,
    dy: int,
) -> bool {
    &&& out.len() == 1
    &&& out[0] matches RoomToolOutput::MoveRooms(ph, mv) && ph == phase && nudged(mv@, sel, bases, bounds, dx, dy)
}

/// The room made current when exactly one is selected.
pub open spec fn notify(sel: Seq<usize>) -> bool {
    sel.len() == 1
}

/// Whether the outputs delete each room of `sel`, in order, under `phase`.
pub open spec fn deletes(out: Seq<RoomToolOutput>, phase: u32, sel: Seq<usize>) -> bool {
    &&& out.len() == sel.len()
    &&& forall|k: int| 0 <= k < out.len() ==> #[trigger] out[k] == RoomToolOutput::DeleteRoom(phase, sel[k])
}

impl RoomTool {
    /// The selections hold no room twice, and a drag holds one entry for
    /// each selected room.
    pub open spec fn wf(&self) -> bool {
        &&& self.pending@.no_duplicates()
        &&& self.current@.no_duplicates()
        &&& match self.status {
            RoomToolStatus::Dragging(_, o) => o@.len() == self.current@.len(),
            RoomToolStatus::Resizing(_, s, _) => s@.len() == self.current@.len(),
            _ => true,
        }
    }

    /// A room tool with `room` selected and nothing under way.
    pub fn new(room: usize) -> (r: Self)
        ensures
            r.wf(),
            r.current@ == seq![room],
            r.pending@.len() == 0,
            r.status is Idle,
            r.draw_phase == 0,
    {
        let mut current = Vec::new();
        current.push(room);
        RoomTool { pending: Vec::new(), current, status: RoomToolStatus::Idle, draw_phase: 0 }
    }
}

/// Whether an event makes the tool read the bounds of the selected rooms.
pub open spec fn reads_selection(tool: RoomTool, ev: RoomToolEvent) -> bool {
    match ev {
        RoomToolEvent::MouseMove(_) => tool.status is CouldStartDragging || tool.status is Dragging,
        RoomToolEvent::Key(k, _) => tool.status is Idle
            && (k == ToolKey::Up || k == ToolKey::Down || k == ToolKey::Left || k == ToolKey::Right),
        _ => false,
    }
}

/// The position an event carries, if any.
pub open spec fn event_pos(ev: RoomToolEvent) -> Option<MapPointStrict> {
    match ev {
        RoomToolEvent::MouseUp(p) => Some(p),
        RoomToolEvent::MouseDownLeft(p, _) => Some(p),
        RoomToolEvent::MouseMove(p) => Some(p),
        RoomToolEvent::MouseDownRight(p) => Some(p),
        RoomToolEvent::Key(..) => None,
    }
}

fn snap(p: MapPointStrict) -> (r: MapPointStrict)
    ensures
        r.x == snapped(p).0,
        r.y == snapped(p).1,
{
    let x = p.x / 8;
    let y = p.y / 8;
    assert(x == div_toward_zero(p.x as int, 8));
    assert(y == div_toward_zero(p.y as int, 8));
    MapPointStrict::new(x * 8, y * 8)
}

fn contains_idx(v: &Vec<usize>, x: usize) -> (r: bool)
    ensures
        r == v@.contains(x),
{
    let mut i: usize = 0;
    while i < v.len()
        invariant
            i <= v@.len(),
            forall|j: int| 0 <= j < i ==> v@[j] != x,
        decreases v@.len() - i,
    {
        if v[i] == x {
            return true;
        }
        i = i + 1;
    }
    false
}

proof fn lemma_hits_distinct(bounds: Seq<MapRectStrict>, rect: (int, int, int, int), n: nat)
    requires
        n <= bounds.len(),
        bounds.len() <= usize::MAX,
    ensures
        hit_indices(bounds, rect, n).no_duplicates(),
        forall|k: int| 0 <= k < hit_indices(bounds, rect, n).len() ==> #[trigger] hit_indices(bounds, rect, n)[k] < n,
    decreases n,
{
    if n > 0 {
        lemma_hits_distinct(bounds, rect, (n - 1) as nat);
        let before = hit_indices(bounds, rect, (n - 1) as nat);
        if overlaps_area(bounds[n - 1], rect) {
            let after = before.push((n - 1) as usize);
            assert forall|i: int, j: int| 0 <= i < after.len() && 0 <= j < after.len() && i != j
                implies after[i] != after[j] by {
                if i < before.len() && j < before.len() {
                } else if i < before.len() {
                    assert(before[i] < n - 1);
                } else {
                    assert(before[j] < n - 1);
                }
            }
        }
    }
}

/// The rooms of the selection, moved by (`dx`, `dy`) from `bases`.
fn nudge_moves(
    bounds: &Vec<MapRectStrict>,
    sel: &Vec<usize>,
    bases: &Vec<MapPointStrict>,
    dx: i32,
    dy: i32,
) -> (mv: Vec<(usize, MapRectStrict)>)
    requires
        bases@.len() == sel@.len(),
        forall|k: int| 0 <= k < sel@.len() ==> #[trigger] sel@[k] < bounds@.len(),
        forall|k: int| 0 <= k < bases@.len() ==> fits_i32((#[trigger] bases@[k]).x + dx) && fits_i32(bases@[k].y + dy),
    ensures
        nudged(mv@, sel@, bases@, bounds@, dx as int, dy as int),
{
    let mut mv: Vec<(usize, MapRectStrict)> = Vec::new();
    let mut k: usize = 0;
    while k < sel.len()
        invariant
            k <= sel@.len(),
            bases@.len() == sel@.len(),
            forall|j: int| 0 <= j < sel@.len() ==> #[trigger] sel@[j] < bounds@.len(),
            forall|j: int| 0 <= j < bases@.len() ==> fits_i32((#[trigger] bases@[j]).x + dx) && fits_i32(bases@[j].y + dy),
            mv@.len() == k,
            forall|j: int| 0 <= j < k ==> moved_to(#[trigger] mv@[j], sel@[j], bases@[j].x + dx,
                bases@[j].y + dy, bounds@[sel@[j] as int].size.width as int, bounds@[sel@[j] as int].size.height as int),
        decreases sel@.len() - k,
    {
        let room = sel[k];
        let base = bases[k];
        assert(fits_i32(bases@[k as int].x + dx));
        let size = bounds[room].size;
        let rect = Rect::new(MapPointStrict::new(base.x + dx, base.y + dy), MapSizeStrict::new(size.width, size.height));
        mv.push((room, rect));
        k = k + 1;
    }
    mv
}


/// The drag from `from` to the snapped `pos`.
pub open spec fn drag(pos: MapPointStrict, from: MapPointStrict) -> (int, int) {
    (snapped(pos).0 - from.x, snapped(pos).1 - from.y)
}

/// The selection box from `start` to the snapped `pos`.
pub open spec fn selection_box(start: MapPointStrict, pos: MapPointStrict) -> MapRectStrict {
    Rect {
        origin: start,
        size: Size2D { width: drag(pos, start).0 as i32, height: drag(pos, start).1 as i32, unit: start.unit },
    }
}

/// The rectangle that Ctrl+A selects the rooms in.
pub open spec fn everywhere() -> MapRectStrict {
    Rect {
        origin: Point2D { x: -1000000i32, y: -1000000i32, unit: MapSpace },
        size: Size2D { width: 2000000i32, height: 2000000i32, unit: MapSpace },
    }
}

/// Whether the selections are as they were.
pub open spec fn same_selection(t0: RoomTool, t1: RoomTool) -> bool {
    t1.pending@ == t0.pending@ && t1.current@ == t0.current@
}

/// Releasing the mouse: a selection box adds what it covers to the
/// selection, a resize is applied under the gesture's phase; the gesture ends.
pub open spec fn on_mouse_up(t0: RoomTool, pos: MapPointStrict, t1: RoomTool, out: Seq<RoomToolOutput>) -> bool {
    &&& t1.status is Idle
    &&& t1.draw_phase == t0.draw_phase
    &&& match t0.status {
        RoomToolStatus::Selecting(_) => {
            &&& t1.pending@.len() == 0
            &&& t1.current@.subrange(0, t0.current@.len() as int) == t0.current@
            &&& forall|x: usize| #[trigger] t1.current@.contains(x) <==> (t0.current@.contains(x) || t0.pending@.contains(x))
            &&& out == (if notify(t1.current@) { seq![RoomToolOutput::SelectRoom(t1.current@[0])] } else { seq![] })
        },
        RoomToolStatus::Resizing(from, starts, side) => {
            let d = drag(pos, from);
            &&& same_selection(t0, t1)
            &&& out.len() == 1
            &&& out[0] matches RoomToolOutput::MoveRooms(ph, mv) && ph == t0.draw_phase
                && resized(mv@, t0.current@, starts@, side, Vector2D { x: d.0 as i32, y: d.1 as i32, unit: from.unit })
        },
        _ => {
            &&& same_selection(t0, t1)
            &&& out.len() == 0
        },
    }
}

/// Pressing the left button, with `shift` held or not: a fresh phase; when
/// idle, a press on a selected room may start a drag, anywhere else a
/// selection box starts, taking the room under the pointer as pending and
/// clearing the selection unless Shift is held.
pub open spec fn on_left_down(
    t0: RoomTool, pos: MapPointStrict, shift: bool, bounds: Seq<MapRectStrict>, id0: u32,
    t1: RoomTool, id1: u32, out: Seq<RoomToolOutput>,
) -> bool {
    &&& t1.draw_phase == id0
    &&& id1 == id_after(id0)
    &&& out.len() == 0
    &&& if t0.status is Idle {
        let got = first_where(bounds.len(), clicked(bounds, pos));
        if got is Some && t0.current@.contains(got->0 as usize) {
            &&& same_selection(t0, t1)
            &&& t1.status matches RoomToolStatus::CouldStartDragging(p, q)
                && p.x == snapped(pos).0 && p.y == snapped(pos).1 && q.x == pos.x && q.y == pos.y
        } else {
            &&& t1.status matches RoomToolStatus::Selecting(p) && p.x == snapped(pos).0 && p.y == snapped(pos).1
            &&& t1.pending@ == (match got { Some(g) => seq![g as usize], None => t0.pending@ })
            &&& t1.current@ == (if shift { t0.current@ } else { Seq::empty() })
        }
    } else {
        &&& same_selection(t0, t1)
        &&& t1.status == t0.status
    }
}

/// Moving the mouse: a selection box takes as pending the rooms it covers; a
/// press on the selection becomes a resize when it grabbed a side of a
/// selected room, else a drag; a drag moves the selection with the pointer.
pub open spec fn on_mouse_move(
    t0: RoomTool, pos: MapPointStrict, bounds: Seq<MapRectStrict>, t1: RoomTool, out: Seq<RoomToolOutput>,
) -> bool {
    &&& t1.draw_phase == t0.draw_phase
    &&& t1.current@ == t0.current@
    &&& match t0.status {
        RoomToolStatus::Selecting(start) => {
            &&& t1.pending@ == hit_indices(bounds, corners(selection_box(start, pos)), bounds.len())
            &&& t1.status == t0.status
            &&& out.len() == 0
        },
        RoomToolStatus::CouldStartDragging(pt, unsnapped) => {
            let side = grab_side(bounds, t0.current@, unsnapped);
            &&& t1.pending@ == t0.pending@
            &&& if side == ResizeSide::NoSide {
                let bases = origins_of(bounds, t0.current@);
                &&& t1.status matches RoomToolStatus::Dragging(p, o) && p == pt && o@ == bases
                &&& is_nudge(out, t0.draw_phase, t0.current@, bases, bounds, drag(pos, pt).0, drag(pos, pt).1)
            } else {
                &&& t1.status matches RoomToolStatus::Resizing(p, s, sd)
                    && p == pt && s@ == bounds_of(bounds, t0.current@) && sd == side
                &&& out.len() == 0
            }
        },
        RoomToolStatus::Dragging(from, bases) => {
            &&& t1.pending@ == t0.pending@
            &&& t1.status == t0.status
            &&& is_nudge(out, t0.draw_phase, t0.current@, bases@, bounds, drag(pos, from).0, drag(pos, from).1)
        },
        _ => {
            &&& t1.pending@ == t0.pending@
            &&& t1.status == t0.status
            &&& out.len() == 0
        },
    }
}

/// Pressing the right button: a fresh phase; when idle, a new room is added
/// at the snapped pointer, under a phase of its own, selected alone and
/// dragged.
pub open spec fn on_right_down(
    t0: RoomTool, pos: MapPointStrict, bounds: Seq<MapRectStrict>, id0: u32,
    t1: RoomTool, id1: u32, out: Seq<RoomToolOutput>,
) -> bool {
    &&& t1.draw_phase == id0
    &&& t1.pending@ == t0.pending@
    &&& if t0.status is Idle {
        &&& id1 == id_after(id_after(id0))
        &&& t1.current@ == seq![bounds.len() as usize]
        &&& t1.status matches RoomToolStatus::Dragging(p, o)
            && p.x == snapped(pos).0 && p.y == snapped(pos).1 && o@.len() == 1 && o@[0] == p
        &&& out.len() == 2
        &&& out[0] == RoomToolOutput::SelectRoom(bounds.len() as usize)
        &&& out[1] matches RoomToolOutput::AddRoom(ph, at)
            && ph == id_after(id0) && at.x == snapped(pos).0 && at.y == snapped(pos).1
    } else {
        &&& id1 == id_after(id0)
        &&& t1.current@ == t0.current@
        &&& t1.status == t0.status
        &&& out.len() == 0
    }
}

/// The outputs of copying the selection: none when it is empty.
pub open spec fn copies(out: Seq<RoomToolOutput>, sel: Seq<usize>) -> bool {
    if sel.len() == 0 {
        out.len() == 0
    } else {
        &&& out.len() == 1
        &&& out[0] matches RoomToolOutput::CopyRooms(v) && v@ == sel
    }
}

/// A key press, with Ctrl alone held or not; only an idle tool reacts, under
/// a fresh phase: the arrows move the selection by a tile, Ctrl+A selects
/// every room, Ctrl+C copies it, Ctrl+X copies and deletes it, Ctrl+V clears
/// it and pastes, Delete deletes it, each deletion under one more phase.
pub open spec fn on_key(
    t0: RoomTool, key: ToolKey, ctrl: bool, bounds: Seq<MapRectStrict>, id0: u32,
    t1: RoomTool, id1: u32, out: Seq<RoomToolOutput>,
) -> bool {
    if !(t0.status is Idle) {
        &&& same_selection(t0, t1) && t1.status == t0.status && t1.draw_phase == t0.draw_phase
        &&& id1 == id0
        &&& out.len() == 0
    } else {
        let bases = origins_of(bounds, t0.current@);
        &&& t1.draw_phase == id0
        &&& t1.status is Idle
        &&& t1.pending@ == t0.pending@
        &&& if key == ToolKey::Up || key == ToolKey::Down || key == ToolKey::Left || key == ToolKey::Right {
            let (dx, dy): (int, int) = if key == ToolKey::Up { (0, -8) } else if key == ToolKey::Down { (0, 8) }
                else if key == ToolKey::Left { (-8, 0) } else { (8, 0) };
            &&& id1 == id_after(id0)
            &&& t1.current@ == t0.current@
            &&& is_nudge(out, id0, t0.current@, bases, bounds, dx, dy)
        } else if key == ToolKey::A && ctrl {
            &&& id1 == id_after(id0)
            &&& t1.current@ == hit_indices(bounds, corners(everywhere()), bounds.len())
            &&& out.len() == 0
        } else if key == ToolKey::C && ctrl {
            &&& id1 == id_after(id0)
            &&& t1.current@ == t0.current@
            &&& copies(out, t0.current@)
        } else if key == ToolKey::X && ctrl {
            let n = if t0.current@.len() == 0 { 0int } else { 1int };
            &&& id1 == id_after(id_after(id0))
            &&& t1.current@ == t0.current@
            &&& copies(out.subrange(0, n), t0.current@)
            &&& deletes(out.subrange(n, out.len() as int), id_after(id0), t0.current@)
        } else if key == ToolKey::V && ctrl {
            &&& id1 == id_after(id0)
            &&& t1.current@.len() == 0
            &&& out == seq![RoomToolOutput::PasteRooms]
        } else if key == ToolKey::Delete {
            &&& id1 == id_after(id_after(id0))
            &&& t1.current@ == t0.current@
            &&& deletes(out, id_after(id0), t0.current@)
        } else {
            &&& id1 == id_after(id0)
            &&& t1.current@ == t0.current@
            &&& out.len() == 0
        }
    }
}

/// What one event does to the room tool and asks of the editor, with `id0`
/// the next identifier before and `id1` after.
pub open spec fn room_tool_spec(
    t0: RoomTool, ev: RoomToolEvent, bounds: Seq<MapRectStrict>, id0: u32,
    t1: RoomTool, id1: u32, out: Seq<RoomToolOutput>,
) -> bool {
    match ev {
        RoomToolEvent::MouseUp(pos) => {
            &&& on_mouse_up(t0, pos, t1, out)
            &&& id1 == id0
        },
        RoomToolEvent::MouseDownLeft(pos, shift) => on_left_down(t0, pos, shift, bounds, id0, t1, id1, out),
        RoomToolEvent::MouseMove(pos) => {
            &&& on_mouse_move(t0, pos, bounds, t1, out)
            &&& id1 == id0
        },
        RoomToolEvent::MouseDownRight(pos) => on_right_down(t0, pos, bounds, id0, t1, id1, out),
        RoomToolEvent::Key(key, ctrl) => on_key(t0, key, ctrl, bounds, id0, t1, id1, out),
    }
}

/// Whether the drag from `from` to the snapped `pos` is a vector of `i32`.
pub open spec fn drag_fits(pos: MapPointStrict, from: MapPointStrict) -> bool {
    fits_i32(drag(pos, from).0) && fits_i32(drag(pos, from).1)
}

/// Whether each base moved by (`dx`, `dy`) stays in `i32`.
pub open spec fn moves_fit(bases: Seq<MapPointStrict>, dx: int, dy: int) -> bool {
    forall|k: int| 0 <= k < bases.len() ==> fits_i32((#[trigger] bases[k]).x + dx) && fits_i32(bases[k].y + dy)
}

/// The drag from `from` to the snapped `pos`, as a vector.
pub open spec fn drag_vec(pos: MapPointStrict, from: MapPointStrict) -> MapVectorStrict {
    Vector2D { x: drag(pos, from).0 as i32, y: drag(pos, from).1 as i32, unit: from.unit }
}

/// Whether the `i32` arithmetic an event makes the tool do stays in range:
/// a selection box's size, a drag's vector, the rooms it moves, a resize's
/// new bounds and the rooms an arrow key nudges.
pub open spec fn step_fits(tool: RoomTool, ev: RoomToolEvent, bounds: Seq<MapRectStrict>) -> bool {
    match ev {
        RoomToolEvent::MouseUp(pos) => match tool.status {
            RoomToolStatus::Resizing(from, starts, side) => {
                &&& drag_fits(pos, from)
                &&& resize_vec_fits(Some(side), drag_vec(pos, from))
                &&& forall|k: int| 0 <= k < starts@.len() ==> resize_fits(#[trigger] starts@[k], Some(side), drag_vec(pos, from))
            },
            _ => true,
        },
        RoomToolEvent::MouseMove(pos) => match tool.status {
            RoomToolStatus::Selecting(start) => drag_fits(pos, start),
            RoomToolStatus::CouldStartDragging(pt, unsnapped) => grab_side(bounds, tool.current@, unsnapped) == ResizeSide::NoSide ==> {
                &&& drag_fits(pos, pt)
                &&& moves_fit(origins_of(bounds, tool.current@), drag(pos, pt).0, drag(pos, pt).1)
            },
            RoomToolStatus::Dragging(from, bases) => {
                &&& drag_fits(pos, from)
                &&& moves_fit(bases@, drag(pos, from).0, drag(pos, from).1)
            },
            _ => true,
        },
        RoomToolEvent::Key(key, _) => tool.status is Idle ==> {
            let bases = origins_of(bounds, tool.current@);
            &&& key == ToolKey::Up ==> moves_fit(bases, 0, -8)
            &&& key == ToolKey::Down ==> moves_fit(bases, 0, 8)
            &&& key == ToolKey::Left ==> moves_fit(bases, -8, 0)
            &&& key == ToolKey::Right ==> moves_fit(bases, 8, 0)
        },
        _ => true,
    }
}

/// Whether every selected room exists.
pub open spec fn selection_exists(sel: Seq<usize>, n: nat) -> bool {
    forall|k: int| 0 <= k < sel.len() ==> #[trigger] sel[k] < n
}

/// Handles one input to the room tool, given the bounds of the map's rooms
/// and the counter that hands out edit phases.
pub fn room_tool_step(
    tool: &mut RoomTool,
    ev: RoomToolEvent,
    bounds: &Vec<MapRectStrict>,
    ids: &mut IdCounter,
) -> (out: Vec<RoomToolOutput>)
    requires
        old(tool).wf(),
        reads_selection(*old(tool), ev) ==> selection_exists(old(tool).current@, bounds@.len()),
        step_fits(*old(tool), ev, bounds@),
    ensures
        final(tool).wf(),
        room_tool_spec(*old(tool), ev, bounds@, old(ids)@, *final(tool), final(ids)@, out@),
{
    match ev {
        RoomToolEvent::MouseUp(pos) => tool.mouse_up(pos),
        RoomToolEvent::MouseDownLeft(pos, shift) => tool.left_down(pos, shift, bounds, ids),
        RoomToolEvent::MouseMove(pos) => tool.mouse_move(pos, bounds),
        RoomToolEvent::MouseDownRight(pos) => tool.right_down(pos, bounds, ids),
        RoomToolEvent::Key(key, ctrl) => tool.key(key, ctrl, bounds, ids),
    }
}


proof fn lemma_first_is(n: nat, p: spec_fn(int) -> bool, k: int)
    requires
        0 <= k < n,
        p(k),
        forall|j: int| 0 <= j < k ==> !#[trigger] p(j),
    ensures
        first_where(n, p) == Some(k),
{
    lemma_first_where(n, p);
    match first_where(n, p) {
        Some(k2) => {
            if k2 < k {
                assert(!p(k2));
            } else if k < k2 {
                assert(!p(k));
            }
        },
        None => {
            assert(!p(k));
        },
    }
}

proof fn lemma_first_none(n: nat, p: spec_fn(int) -> bool)
    requires
        forall|j: int| 0 <= j < n ==> !#[trigger] p(j),
    ensures
        first_where(n, p) is None,
{
    lemma_first_where(n, p);
    if let Some(k) = first_where(n, p) {
        assert(p(k));
    }
}

/// The rooms of the selection, resized from `starts` by a drag of `d` on `side`.
fn resize_moves(
    sel: &Vec<usize>,
    starts: &Vec<MapRectStrict>,
    side: ResizeSide,
    d: MapVectorStrict,
) -> (mv: Vec<(usize, MapRectStrict)>)
    requires
        starts@.len() == sel@.len(),
        resize_vec_fits(Some(side), d),
        forall|k: int| 0 <= k < starts@.len() ==> resize_fits(#[trigger] starts@[k], Some(side), d),
    ensures
        resized(mv@, sel@, starts@, side, d),
{
    let mut mv: Vec<(usize, MapRectStrict)> = Vec::new();
    let mut k: usize = 0;
    while k < sel.len()
        invariant
            k <= sel@.len(),
            starts@.len() == sel@.len(),
            resize_vec_fits(Some(side), d),
            forall|j: int| 0 <= j < starts@.len() ==> resize_fits(#[trigger] starts@[j], Some(side), d),
            mv@.len() == k,
            forall|j: int| 0 <= j < k ==> {
                let (x, y, w, h) = spec_resized(starts@[j], Some(side), d);
                moved_to(#[trigger] mv@[j], sel@[j], x, y, w, h)
            },
        decreases sel@.len() - k,
    {
        assert(resize_fits(starts@[k as int], Some(side), d));
        let rect = resized_bounds(starts[k], Some(side), d);
        mv.push((sel[k], rect));
        k = k + 1;
    }
    mv
}

/// The origins of the selected rooms.
fn selection_origins(bounds: &Vec<MapRectStrict>, sel: &Vec<usize>) -> (r: Vec<MapPointStrict>)
    requires
        selection_exists(sel@, bounds@.len()),
    ensures
        r@ == origins_of(bounds@, sel@),
{
    let mut r: Vec<MapPointStrict> = Vec::new();
    let mut k: usize = 0;
    while k < sel.len()
        invariant
            k <= sel@.len(),
            selection_exists(sel@, bounds@.len()),
            r@ == origins_of(bounds@, sel@).subrange(0, k as int),
        decreases sel@.len() - k,
    {
        let room = sel[k];
        r.push(bounds[room].origin);
        k = k + 1;
    }
    r
}

/// The bounds of the selected rooms.
fn selection_bounds(bounds: &Vec<MapRectStrict>, sel: &Vec<usize>) -> (r: Vec<MapRectStrict>)
    requires
        selection_exists(sel@, bounds@.len()),
    ensures
        r@ == bounds_of(bounds@, sel@),
{
    let mut r: Vec<MapRectStrict> = Vec::new();
    let mut k: usize = 0;
    while k < sel.len()
        invariant
            k <= sel@.len(),
            selection_exists(sel@, bounds@.len()),
            r@ == bounds_of(bounds@, sel@).subrange(0, k as int),
        decreases sel@.len() - k,
    {
        let room = sel[k];
        r.push(bounds[room]);
        k = k + 1;
    }
    r
}

/// A copy of a list of room indices.
fn copy_indices(sel: &Vec<usize>) -> (r: Vec<usize>)
    ensures
        r@ == sel@,
{
    let mut r: Vec<usize> = Vec::new();
    let mut k: usize = 0;
    while k < sel.len()
        invariant
            k <= sel@.len(),
            r@ == sel@.subrange(0, k as int),
        decreases sel@.len() - k,
    {
        r.push(sel[k]);
        k = k + 1;
    }
    r
}

/// Deletes each room of the selection under `phase`, appended to `out`.
fn push_deletes(out: &mut Vec<RoomToolOutput>, sel: &Vec<usize>, phase: u32)
    ensures
        final(out)@.subrange(0, old(out)@.len() as int) == old(out)@,
        deletes(final(out)@.subrange(old(out)@.len() as int, final(out)@.len() as int), phase, sel@),
{
    let ghost start = out@.len();
    let mut k: usize = 0;
    while k < sel.len()
        invariant
            k <= sel@.len(),
            out@.len() == start + k,
            out@.subrange(0, start as int) == old(out)@,
            forall|j: int| 0 <= j < k ==> #[trigger] out@[start + j] == RoomToolOutput::DeleteRoom(phase, sel@[j]),
        decreases sel@.len() - k,
    {
        out.push(RoomToolOutput::DeleteRoom(phase, sel[k]));
        k = k + 1;
    }
    proof {
        let tail = out@.subrange(start as int, out@.len() as int);
        assert forall|j: int| 0 <= j < tail.len() implies #[trigger] tail[j] == RoomToolOutput::DeleteRoom(phase, sel@[j]) by {
            assert(tail[j] == out@[start + j]);
        }
    }
}

impl RoomTool {
    fn is_idle(&self) -> (r: bool)
        ensures
            r == self.status is Idle,
    {
        match self.status {
            RoomToolStatus::Idle => true,
            _ => false,
        }
    }

    /// Adds the pending rooms to the selection, leaving none pending.
    fn confirm_selection(&mut self)
        requires
            old(self).pending@.no_duplicates(),
            old(self).current@.no_duplicates(),
        ensures
            final(self).pending@.len() == 0,
            final(self).current@.no_duplicates(),
            final(self).current@.subrange(0, old(self).current@.len() as int) == old(self).current@,
            forall|x: usize| #[trigger] final(self).current@.contains(x)
                <==> (old(self).current@.contains(x) || old(self).pending@.contains(x)),
            final(self).status == old(self).status,
            final(self).draw_phase == old(self).draw_phase,
    {
        let ghost c0 = self.current@;
        let ghost p0 = self.pending@;
        let mut k: usize = 0;
        while k < self.pending.len()
            invariant
                k <= p0.len(),
                self.pending@ == p0,
                self.current@.no_duplicates(),
                self.current@.subrange(0, c0.len() as int) == c0,
                self.current@.len() >= c0.len(),
                forall|x: usize| #[trigger] self.current@.contains(x)
                    <==> (c0.contains(x) || p0.subrange(0, k as int).contains(x)),
                self.status == old(self).status,
                self.draw_phase == old(self).draw_phase,
            decreases p0.len() - k,
        {
            let p = self.pending[k];
            let ghost before = self.current@;
            if !contains_idx(&self.current, p) {
                self.current.push(p);
                proof {
                    let after = self.current@;
                    assert forall|i: int, j: int| 0 <= i < after.len() && 0 <= j < after.len() && i != j
                        implies after[i] != after[j] by {
                        if i < before.len() && j < before.len() {
                        } else if i < before.len() {
                            assert(before.contains(before[i]));
                        } else {
                            assert(before.contains(before[j]));
                        }
                    }
                    assert(after.subrange(0, c0.len() as int) =~= c0) by {
                        assert(before.subrange(0, c0.len() as int) == c0);
                    }
                }
            }
            proof {
                let now = self.current@;
                assert forall|x: usize| #[trigger] now.contains(x)
                    <==> (c0.contains(x) || p0.subrange(0, k + 1).contains(x)) by {
                    if p0.subrange(0, k + 1).contains(x) && !p0.subrange(0, k as int).contains(x) {
                        let i = choose|i: int| 0 <= i < k + 1 && #[trigger] p0.subrange(0, k + 1)[i] == x;
                        if i < k {
                            assert(p0.subrange(0, k as int)[i] == x);
                        }
                        assert(x == p);
                        if before.contains(p) {
                        } else {
                            assert(now[now.len() - 1] == p);
                        }
                    }
                    if p0.subrange(0, k as int).contains(x) {
                        let i = choose|i: int| 0 <= i < k && #[trigger] p0.subrange(0, k as int)[i] == x;
                        assert(p0.subrange(0, k + 1)[i] == x);
                    }
                    if now.contains(x) && !before.contains(x) {
                        let i = choose|i: int| 0 <= i < now.len() && #[trigger] now[i] == x;
                        if i < before.len() {
                            assert(before[i] == x);
                        }
                        assert(p0.subrange(0, k + 1)[k as int] == x);
                    }
                    if before.contains(x) {
                        let i = choose|i: int| 0 <= i < before.len() && #[trigger] before[i] == x;
                        assert(now[i] == x);
                    }
                }
            }
            k = k + 1;
        }
        proof {
            assert(p0.subrange(0, p0.len() as int) =~= p0);
        }
        self.pending = Vec::new();
    }
}

impl RoomTool {
    fn mouse_up(&mut self, pos: MapPointStrict) -> (out: Vec<RoomToolOutput>)
        requires
            old(self).wf(),
            step_fits(*old(self), RoomToolEvent::MouseUp(pos), Seq::empty()),
        ensures
            final(self).wf(),
            on_mouse_up(*old(self), pos, *final(self), out@),
    {
        let mut out: Vec<RoomToolOutput> = Vec::new();
        let selecting = match self.status {
            RoomToolStatus::Selecting(_) => true,
            _ => false,
        };
        if selecting {
            self.confirm_selection();
            if self.current.len() == 1 {
                out.push(RoomToolOutput::SelectRoom(self.current[0]));
            }
        } else {
            match &self.status {
                RoomToolStatus::Resizing(from, starts, side) => {
                    let p = snap(pos);
                    let d = p.sub_point(*from);
                    let mv = resize_moves(&self.current, starts, *side, d);
                    out.push(RoomToolOutput::MoveRooms(self.draw_phase, mv));
                },
                _ => {},
            }
        }
        self.status = RoomToolStatus::Idle;
        out
    }

    fn left_down(&mut self, pos: MapPointStrict, shift: bool, bounds: &Vec<MapRectStrict>, ids: &mut IdCounter)
        -> (out: Vec<RoomToolOutput>)
        requires
            old(self).wf(),
        ensures
            final(self).wf(),
            on_left_down(*old(self), pos, shift, bounds@, old(ids)@, *final(self), final(ids)@, out@),
    {
        self.draw_phase = ids.next_uuid();
        if self.is_idle() {
            let got = room_at(bounds, pos);
            proof {
                let hit = clicked(bounds@, pos);
                match got {
                    Some(i) => {
                        assert forall|j: int| 0 <= j < i implies !#[trigger] hit(j) by {}
                        lemma_first_is(bounds@.len(), hit, i as int);
                    },
                    None => {
                        assert forall|j: int| 0 <= j < bounds@.len() implies !#[trigger] hit(j) by {}
                        lemma_first_none(bounds@.len(), hit);
                    },
                }
            }
            let on_selected = match got {
                Some(g) => contains_idx(&self.current, g),
                None => false,
            };
            let at = snap(pos);
            if on_selected {
                self.status = RoomToolStatus::CouldStartDragging(at, pos);
            } else {
                self.status = RoomToolStatus::Selecting(at);
                match got {
                    Some(g) => {
                        let mut v: Vec<usize> = Vec::new();
                        v.push(g);
                        self.pending = v;
                    },
                    None => {},
                }
                if !shift {
                    self.current = Vec::new();
                }
            }
        }
        Vec::new()
    }

    fn mouse_move(&mut self, pos: MapPointStrict, bounds: &Vec<MapRectStrict>) -> (out: Vec<RoomToolOutput>)
        requires
            old(self).wf(),
            (old(self).status is CouldStartDragging || old(self).status is Dragging)
                ==> selection_exists(old(self).current@, bounds@.len()),
            step_fits(*old(self), RoomToolEvent::MouseMove(pos), bounds@),
        ensures
            final(self).wf(),
            on_mouse_move(*old(self), pos, bounds@, *final(self), out@),
    {
        let start = match &self.status {
            RoomToolStatus::CouldStartDragging(pt, unsnapped) => Some((*pt, *unsnapped)),
            _ => None,
        };
        match start {
            Some((pt, unsnapped)) => {
                let side = room_resize_side(bounds, &self.current, unsnapped);
                proof {
                    let g = grabbed(bounds@, self.current@, unsnapped);
                    if exists|k: int| 0 <= k < self.current@.len() && self.current@[k] < bounds@.len()
                        && spec_contains(bounds@[self.current@[k] as int], unsnapped) {
                        let k = choose|k: int| 0 <= k < self.current@.len() && self.current@[k] < bounds@.len()
                            && spec_contains(#[trigger] bounds@[self.current@[k] as int], unsnapped)
                            && side == spec_side_at(bounds@[self.current@[k] as int], unsnapped)
                            && forall|k2: int| 0 <= k2 < k && self.current@[k2] < bounds@.len()
                                ==> !spec_contains(bounds@[self.current@[k2] as int], unsnapped);
                        assert forall|j: int| 0 <= j < k implies !#[trigger] g(j) by {}
                        lemma_first_is(self.current@.len(), g, k);
                    } else {
                        assert forall|j: int| 0 <= j < self.current@.len() implies !#[trigger] g(j) by {}
                        lemma_first_none(self.current@.len(), g);
                    }
                    assert(side == grab_side(bounds@, self.current@, unsnapped));
                }
                if side == ResizeSide::NoSide {
                    let origins = selection_origins(bounds, &self.current);
                    self.status = RoomToolStatus::Dragging(pt, origins);
                } else {
                    let starts = selection_bounds(bounds, &self.current);
                    self.status = RoomToolStatus::Resizing(pt, starts, side);
                }
            },
            None => {},
        }
        let mut out: Vec<RoomToolOutput> = Vec::new();
        match &self.status {
            RoomToolStatus::Selecting(start) => {
                let p = snap(pos);
                let rect = Rect::new(*start, MapSizeStrict::new(p.x - start.x, p.y - start.y));
                proof {
                    assert(corners(rect) == corners(selection_box(*start, pos)));
                }
                let hits = rooms_in(bounds, rect);
                let count = bounds.len();
                proof {
                    assert(count == bounds@.len());
                    lemma_hits_distinct(bounds@, corners(rect), bounds@.len());
                }
                self.pending = hits;
            },
            RoomToolStatus::Dragging(from, bases) => {
                let p = snap(pos);
                let mv = nudge_moves(bounds, &self.current, bases, p.x - from.x, p.y - from.y);
                out.push(RoomToolOutput::MoveRooms(self.draw_phase, mv));
            },
            _ => {},
        }
        out
    }

    fn right_down(&mut self, pos: MapPointStrict, bounds: &Vec<MapRectStrict>, ids: &mut IdCounter)
        -> (out: Vec<RoomToolOutput>)
        requires
            old(self).wf(),
        ensures
            final(self).wf(),
            on_right_down(*old(self), pos, bounds@, old(ids)@, *final(self), final(ids)@, out@),
    {
        self.draw_phase = ids.next_uuid();
        let mut out: Vec<RoomToolOutput> = Vec::new();
        if self.is_idle() {
            let at = snap(pos);
            let n = bounds.len();
            let mut current: Vec<usize> = Vec::new();
            current.push(n);
            self.current = current;
            let mut origins: Vec<MapPointStrict> = Vec::new();
            origins.push(at);
            self.status = RoomToolStatus::Dragging(at, origins);
            out.push(RoomToolOutput::SelectRoom(n));
            let phase = ids.next_uuid();
            out.push(RoomToolOutput::AddRoom(phase, at));
        }
        out
    }

    fn key(&mut self, key: ToolKey, ctrl: bool, bounds: &Vec<MapRectStrict>, ids: &mut IdCounter)
        -> (out: Vec<RoomToolOutput>)
        requires
            old(self).wf(),
            step_fits(*old(self), RoomToolEvent::Key(key, ctrl), bounds@),
            (old(self).status is Idle
                && (key == ToolKey::Up || key == ToolKey::Down || key == ToolKey::Left || key == ToolKey::Right))
                ==> selection_exists(old(self).current@, bounds@.len()),
        ensures
            final(self).wf(),
            on_key(*old(self), key, ctrl, bounds@, old(ids)@, *final(self), final(ids)@, out@),
    {
        let mut out: Vec<RoomToolOutput> = Vec::new();
        if !self.is_idle() {
            return out;
        }
        self.draw_phase = ids.next_uuid();
        let arrow = key == ToolKey::Up || key == ToolKey::Down || key == ToolKey::Left || key == ToolKey::Right;
        if arrow {
            let (dx, dy): (i32, i32) = if key == ToolKey::Up { (0, -8) } else if key == ToolKey::Down { (0, 8) }
                else if key == ToolKey::Left { (-8, 0) } else { (8, 0) };
            let bases = selection_origins(bounds, &self.current);
            let mv = nudge_moves(bounds, &self.current, &bases, dx, dy);
            out.push(RoomToolOutput::MoveRooms(self.draw_phase, mv));
        } else if key == ToolKey::A && ctrl {
            let everything = Rect::new(MapPointStrict::new(-1000000, -1000000), MapSizeStrict::new(2000000, 2000000));
            proof {
                assert(corners(everything) == corners(everywhere()));
            }
            let all = rooms_in(bounds, everything);
            let count = bounds.len();
            proof {
                assert(count == bounds@.len());
                lemma_hits_distinct(bounds@, corners(everywhere()), bounds@.len());
            }
            self.current = all;
        } else if key == ToolKey::C && ctrl {
            if self.current.len() > 0 {
                out.push(RoomToolOutput::CopyRooms(copy_indices(&self.current)));
            }
        } else if key == ToolKey::X && ctrl {
            if self.current.len() > 0 {
                out.push(RoomToolOutput::CopyRooms(copy_indices(&self.current)));
            }
            let phase = ids.next_uuid();
            let ghost copied = out@;
            push_deletes(&mut out, &self.current, phase);
            proof {
                assert(out@.subrange(0, copied.len() as int) == copied);
            }
        } else if key == ToolKey::V && ctrl {
            self.current = Vec::new();
            out.push(RoomToolOutput::PasteRooms);
        } else if key == ToolKey::Delete {
            let phase = ids.next_uuid();
            push_deletes(&mut out, &self.current, phase);
            proof {
                assert(out@.subrange(0, out@.len() as int) =~= out@);
            }
        }
        out
    }
}
} // verus!
