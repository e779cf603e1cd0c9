use vstd::prelude::*;
use crate::room::{Room, MapEntity, ents, decals, first_entity, first_decal, find_in_room};
use crate::rooms::{ResizeSide, contains_wide, side_at, side_from, spec_side_at};
use crate::selection::AppSelection;
use crate::units::{RoomPoint, RoomRect, RoomVector, fits_i32, spec_contains};

verus! {

/// An edit a resize of the selection asks for: an entity or trigger (`true`)
/// given new bounds, or a decal (`true` in the foreground) stretched to fill
/// a new rectangle.
#[derive(Copy, Clone, Debug, PartialEq, Eq, Structural)]
pub enum ResizeEdit {
    Entity { id: i32, trigger: bool, x: i32, y: i32, width: u32, height: u32 },
    Decal { fg: bool, id: u32, x: i32, y: i32, width: i32, height: i32 },
}

/// How a drag of `d` on `side` moves the origin and changes the size.
pub open spec fn side_delta(side: ResizeSide, d: RoomVector) -> (int, int, int, int) {
    (
        if side.spec_is_left() { d.x as int } else { 0 },
        if side.spec_is_top() { d.y as int } else { 0 },
        if side.spec_is_left() { -d.x } else if side.spec_is_right() { d.x as int } else { 0 },
        if side.spec_is_top() { -d.y } else if side.spec_is_bottom() { d.y as int } else { 0 },
    )
}

/// The entity a selection names.
pub open spec fn sel_entity(room: Room, id: i32, trigger: bool) -> MapEntity {
    ents(room, trigger)[first_entity(ents(room, trigger), id)->0]
}

/// The rectangle a selected item is resized from: the one given, or else
/// the entity's own bounds.
pub open spec fn start_of(room: Room, sel: AppSelection, start: Option<RoomRect>) -> (int, int, int, int) {
    match start {
        Some(r) => (r.origin.x as int, r.origin.y as int, r.size.width as int, r.size.height as int),
        None => match sel {
            AppSelection::EntityBody(id, trigger) => {
                let e = sel_entity(room, id, trigger);
                (e.x as int, e.y as int, (e.width as i32) as int, (e.height as i32) as int)
            },
            _ => (0, 0, 0, 0),
        },
    }
}

/// Whether a selected item can be resized: it is an entity, trigger or decal
/// that the room holds, and a decal comes with its starting rectangle.
pub open spec fn resizable(room: Room, sel: AppSelection, start: Option<RoomRect>) -> bool {
    match sel {
        AppSelection::EntityBody(id, trigger) => first_entity(ents(room, trigger), id) is Some,
        AppSelection::Decal(id, fg) => first_decal(decals(room, fg), id) is Some && start is Some,
        _ => false,
    }
}

/// Whether the drag itself can be turned into a change of origin and size:
/// the component negated for a left or top side is not `i32::MIN`.
pub open spec fn drag_fits(side: ResizeSide, d: RoomVector) -> bool {
    &&& side.spec_is_left() ==> d.x != i32::MIN
    &&& side.spec_is_top() ==> d.y != i32::MIN
}

/// Whether the new origin and size of a selected item stay in `i32`.
pub open spec fn resize_fits(room: Room, sel: AppSelection, start: Option<RoomRect>, side: ResizeSide, d: RoomVector) -> bool {
    let (x, y, w, h) = start_of(room, sel, start);
    let (px, py, sx, sy) = side_delta(side, d);
    fits_i32(x + px) && fits_i32(y + py) && fits_i32(w + sx) && fits_i32(h + sy)
}

/// The edit resizing a selected item from its start by a drag on a side, an
/// entity's size kept at least its minimum.
pub open spec fn resize_edit(
    room: Room, sel: AppSelection, start: Option<RoomRect>, min: (u32, u32), side: ResizeSide, d: RoomVector,
) -> ResizeEdit {
    let (x, y, w, h) = start_of(room, sel, start);
    let (px, py, sx, sy) = side_delta(side, d);
    match sel {
        AppSelection::Decal(id, fg) => ResizeEdit::Decal {
            fg, id, x: (x + px) as i32, y: (y + py) as i32, width: (w + sx) as i32, height: (h + sy) as i32,
        },
        AppSelection::EntityBody(id, trigger) => ResizeEdit::Entity {
            id, trigger, x: (x + px) as i32, y: (y + py) as i32,
            width: (if w + sx < (min.0 as i32) { (min.0 as i32) as int } else { w + sx }) as i32 as u32,
            height: (if h + sy < (min.1 as i32) { (min.1 as i32) as int } else { h + sy }) as i32 as u32,
        },
        _ => ResizeEdit::Entity { id: 0, trigger: false, x: 0, y: 0, width: 0, height: 0 },
    }
}

/// Resizing a selected decal or entity moves exactly the edges grabbed: a
/// grabbed left edge (of `Left`, `TopLeft` or `BottomLeft`) goes by the drag
/// with the right edge staying, a grabbed right edge goes by the drag with
/// the left edge staying, an edge not grabbed stays, likewise for top and
/// bottom. A decal takes the new rectangle as it is; an entity keeps at
/// least its minimum size.
pub proof fn law_resize_edit_moves_grabbed_edges(
    room: Room, sel: AppSelection, start: Option<RoomRect>, min: (u32, u32), side: ResizeSide, d: RoomVector,
)
    requires
        resizable(room, sel, start),
        drag_fits(side, d),
        resize_fits(room, sel, start, side, d),
    ensures
        ({
            let (x0, y0, w0, h0) = start_of(room, sel, start);
            let left = side == ResizeSide::Left || side == ResizeSide::TopLeft || side == ResizeSide::BottomLeft;
            let right = side == ResizeSide::Right || side == ResizeSide::TopRight || side == ResizeSide::BottomRight;
            let top = side == ResizeSide::Top || side == ResizeSide::TopLeft || side == ResizeSide::TopRight;
            let bottom = side == ResizeSide::Bottom || side == ResizeSide::BottomLeft || side == ResizeSide::BottomRight;
            let nx = if left { x0 + d.x } else { x0 };
            let ny = if top { y0 + d.y } else { y0 };
            let nx1 = if right { x0 + w0 + d.x } else { x0 + w0 };
            let ny1 = if bottom { y0 + h0 + d.y } else { y0 + h0 };
            match resize_edit(room, sel, start, min, side, d) {
                ResizeEdit::Decal { fg, id, x, y, width, height } => {
                    &&& sel == AppSelection::Decal(id, fg)
                    &&& x == nx && y == ny && x + width == nx1 && y + height == ny1
                },
                ResizeEdit::Entity { id, trigger, x, y, width, height } => {
                    &&& sel == AppSelection::EntityBody(id, trigger)
                    &&& x == nx && y == ny
                    &&& (min.0 <= i32::MAX && 0 <= nx1 - nx) ==> width == (if nx1 - nx < min.0 { min.0 as int } else { nx1 - nx })
                    &&& (min.1 <= i32::MAX && 0 <= ny1 - ny) ==> height == (if ny1 - ny < min.1 { min.1 as int } else { ny1 - ny })
                },
            }
        }),
{
}

fn resize_one(
    room: &Room, sel: AppSelection, start: Option<RoomRect>, min: (u32, u32), side: ResizeSide, d: RoomVector,
) -> (r: ResizeEdit)
    requires
        resizable(*room, sel, start),
        drag_fits(side, d),
        resize_fits(*room, sel, start, side, d),
    ensures
        r == resize_edit(*room, sel, start, min, side, d),
{
    let (x, y, w, h): (i32, i32, i32, i32) = match start {
        Some(r) => (r.origin.x, r.origin.y, r.size.width, r.size.height),
        None => match sel {
            AppSelection::EntityBody(id, trigger) => {
                let i = match find_in_room(room, trigger, id) {
                    Some(i) => i,
                    None => 0,
                };
                let e = if trigger { &room.triggers[i] } else { &room.entities[i] };
                (e.x, e.y, e.width as i32, e.height as i32)
            },
            _ => (0, 0, 0, 0),
        },
    };
    let px: i32 = if side.is_left() { d.x } else { 0 };
    let py: i32 = if side.is_top() { d.y } else { 0 };
    let sx: i32 = if side.is_left() { -d.x } else if side.is_right() { d.x } else { 0 };
    let sy: i32 = if side.is_top() { -d.y } else if side.is_bottom() { d.y } else { 0 };
    match sel {
        AppSelection::Decal(id, fg) => ResizeEdit::Decal { fg, id, x: x + px, y: y + py, width: w + sx, height: h + sy },
        AppSelection::EntityBody(id, trigger) => {
            let nw = w + sx;
            let nh = h + sy;
            let mw = min.0 as i32;
            let mh = min.1 as i32;
            ResizeEdit::Entity {
                id,
                trigger,
                x: x + px,
                y: y + py,
                width: (if nw < mw { mw } else { nw }) as u32,
                height: (if nh < mh { mh } else { nh }) as u32,
            }
        },
        _ => ResizeEdit::Entity { id: 0, trigger: false, x: 0, y: 0, width: 0, height: 0 },
    }
}

/// Resizes the selected entities, triggers and decals by a drag of `d` on
/// `side`, or on the top-left corner when no side is grabbed. `starts`
/// gives, item by item, the rectangle a drag started from, if one did (a
/// decal's is always given), and `mins` each entity's minimum size.
pub fn resize_selection(
    room: &Room,
    sel: &Vec<AppSelection>,
    starts: &Vec<Option<RoomRect>>,
    mins: &Vec<(u32, u32)>,
    side: Option<ResizeSide>,
    d: RoomVector,
) -> (out: Vec<ResizeEdit>)
    requires
        starts@.len() == sel@.len(),
        mins@.len() == sel@.len(),
        forall|k: int| 0 <= k < sel@.len() ==> resizable(*room, #[trigger] sel@[k], starts@[k]),
        drag_fits(match side { Some(s) => s, None => ResizeSide::TopLeft }, d),
        forall|k: int| 0 <= k < sel@.len() ==> resize_fits(*room, #[trigger] sel@[k], starts@[k],
            match side { Some(s) => s, None => ResizeSide::TopLeft }, d),
    ensures
        out@.len() == sel@.len(),
        forall|k: int| 0 <= k < out@.len() ==> #[trigger] out@[k] == resize_edit(*room, sel@[k], starts@[k], mins@[k],
            match side { Some(s) => s, None => ResizeSide::TopLeft }, d),
{
    let s = match side {
        Some(s) => s,
        None => ResizeSide::TopLeft,
    };
    let mut out: Vec<ResizeEdit> = Vec::new();
    let mut k: usize = 0;
    while k < sel.len()
        invariant
            k <= sel@.len(),
            starts@.len() == sel@.len(),
            mins@.len() == sel@.len(),
            forall|j: int| 0 <= j < sel@.len() ==> resizable(*room, #[trigger] sel@[j], starts@[j]),
            s == (match side { Some(s) => s, None => ResizeSide::TopLeft }),
            drag_fits(s, d),
            forall|j: int| 0 <= j < sel@.len() ==> resize_fits(*room, #[trigger] sel@[j], starts@[j], s, d),
            out@.len() == k,
            forall|j: int| 0 <= j < k ==> #[trigger] out@[j] == resize_edit(*room, sel@[j], starts@[j], mins@[j], s, d),
        decreases sel@.len() - k,
    {
        assert(resizable(*room, sel@[k as int], starts@[k as int]));
        assert(resize_fits(*room, sel@[k as int], starts@[k as int], s, d));
        out.push(resize_one(room, sel[k], starts[k], mins[k], s, d));
        k = k + 1;
    }
    out
}


/// The first of `rects`, from the `i`-th on, that holds `p`.
pub open spec fn first_holding(rects: Seq<RoomRect>, p: RoomPoint, i: int) -> Option<RoomRect>
    decreases rects.len() - i,
{
    if i < 0 || i >= rects.len() {
        None
    } else if spec_contains(rects[i], p) {
        Some(rects[i])
    } else {
        first_holding(rects, p, i + 1)
    }
}

/// The side grabbed of the first hitbox, in selection order from the `k`-th
/// selected item on, that holds `p`.
pub open spec fn grabbed_side(rects: Seq<Vec<RoomRect>>, p: RoomPoint, k: int) -> Option<ResizeSide>
    decreases rects.len() - k,
{
    if k < 0 || k >= rects.len() {
        None
    } else {
        match first_holding(rects[k]@, p, 0) {
            Some(r) => Some(spec_side_at(r, p)),
            None => grabbed_side(rects, p, k + 1),
        }
    }
}

/// The grabbed side as the first `n` selected items allow it: tiles, lifted
/// tiles and nodes allow none, an entity keeps only the directions it can be
/// resized in (by `resizable`, horizontal then vertical), a decal allows all.
pub open spec fn allowed_side(sel: Seq<AppSelection>, resizable: Seq<(bool, bool)>, side: ResizeSide, n: nat) -> ResizeSide
    decreases n,
{
    if n == 0 {
        side
    } else {
        let s = allowed_side(sel, resizable, side, (n - 1) as nat);
        match sel[n - 1] {
            AppSelection::EntityBody(_, _) => {
                let s1 = if resizable[n - 1].0 { s } else {
                    side_from(s.spec_is_top(), s.spec_is_bottom(), false, false)
                };
                if resizable[n - 1].1 { s1 } else { side_from(false, false, s1.spec_is_left(), s1.spec_is_right()) }
            },
            AppSelection::Decal(_, _) => s,
            _ => ResizeSide::NoSide,
        }
    }
}

/// The side of the selection a press at `pointer` grabs: that of the first
/// hitbox, in selection order, holding the pointer, narrowed by every
/// selected item; none when no hitbox holds it.
pub open spec fn selection_side(
    sel: Seq<AppSelection>, rects: Seq<Vec<RoomRect>>, resizable: Seq<(bool, bool)>, pointer: RoomPoint,
) -> ResizeSide {
    match grabbed_side(rects, pointer, 0) {
        Some(s) => allowed_side(sel, resizable, s, sel.len()),
        None => ResizeSide::NoSide,
    }
}

fn first_holding_at(boxes: &Vec<RoomRect>, pointer: RoomPoint) -> (r: Option<usize>)
    ensures
        match r {
            Some(i) => i < boxes@.len() && first_holding(boxes@, pointer, 0) == Some(boxes@[i as int]),
            None => first_holding(boxes@, pointer, 0) is None,
        },
{
    let mut i: usize = 0;
    while i < boxes.len()
        invariant
            i <= boxes@.len(),
            first_holding(boxes@, pointer, 0) == first_holding(boxes@, pointer, i as int),
        decreases boxes@.len() - i,
    {
        if contains_wide(&boxes[i], pointer) {
            return Some(i);
        }
        i = i + 1;
    }
    None
}

fn grabbed_at(rects: &Vec<Vec<RoomRect>>, pointer: RoomPoint) -> (r: Option<ResizeSide>)
    ensures
        r == grabbed_side(rects@, pointer, 0),
{
    let mut k: usize = 0;
    while k < rects.len()
        invariant
            k <= rects@.len(),
            grabbed_side(rects@, pointer, 0) == grabbed_side(rects@, pointer, k as int),
        decreases rects@.len() - k,
    {
        let boxes = &rects[k];
        match first_holding_at(boxes, pointer) {
            Some(i) => {
                return Some(side_at(&boxes[i], pointer));
            },
            None => {},
        }
        k = k + 1;
    }
    None
}

/// Which side of the selection a press at `pointer` grabs for a resize,
/// given each selected item's hitboxes and, for entities, whether they can
/// be resized horizontally and vertically.
pub fn selection_resize_side(
    sel: &Vec<AppSelection>,
    rects: &Vec<Vec<RoomRect>>,
    resizable: &Vec<(bool, bool)>,
    pointer: RoomPoint,
) -> (r: ResizeSide)
    requires
        rects@.len() == sel@.len(),
        resizable@.len() == sel@.len(),
    ensures
        r == selection_side(sel@, rects@, resizable@, pointer),
{
    let grabbed = grabbed_at(rects, pointer);
    let mut side = match grabbed {
        Some(s) => s,
        None => {
            return ResizeSide::NoSide;
        },
    };
    let ghost start = side;
    let mut k: usize = 0;
    while k < sel.len()
        invariant
            k <= sel@.len(),
            resizable@.len() == sel@.len(),
            side == allowed_side(sel@, resizable@, start, k as nat),
            grabbed_side(rects@, pointer, 0) == Some(start),
        decreases sel@.len() - k,
    {
        if side == ResizeSide::NoSide {
            proof {
                lemma_no_side_from(sel@, resizable@, start, k as nat, sel@.len());
            }
            return ResizeSide::NoSide;
        }
        side = match sel[k] {
            AppSelection::EntityBody(_, _) => {
                let (rx, ry) = resizable[k];
                let s1 = if rx { side } else { side.filter_out_left_right() };
                if ry { s1 } else { s1.filter_out_top_bottom() }
            },
            AppSelection::Decal(_, _) => side,
            _ => ResizeSide::NoSide,
        };
        k = k + 1;
    }
    side
}

proof fn lemma_no_side_from(sel: Seq<AppSelection>, resizable: Seq<(bool, bool)>, side: ResizeSide, k: nat, n: nat)
    requires
        k <= n,
        allowed_side(sel, resizable, side, k) == ResizeSide::NoSide,
    ensures
        allowed_side(sel, resizable, side, n) == ResizeSide::NoSide,
    decreases n - k,
{
    if k < n {
        lemma_no_side_from(sel, resizable, side, k, (n - 1) as nat);
    }
}
} // verus!
