use vstd::prelude::*;
use crate::layer::Layer;
use crate::room::{Room, ents, first_entity, find_in_room};
use crate::selection::AppSelection;
use crate::tile_grid::{TileGrid, spec_get};
use crate::units::{
    Point2D, RoomRect, TilePoint, TileSpace, spec_max_x, spec_max_y,
};

verus! {

/// Whether a looked-up tile holds something other than the layer's empty
/// tile ('0' for terrain, -1 for object tiles).
pub open spec fn filled<T>(t: Option<T>, empty: T) -> bool {
    t matches Some(v) && v != empty
}

/// The tile holding room pixel (`x`, `y`), both not negative.
pub open spec fn tile_of(x: int, y: int) -> TilePoint {
    Point2D { x: (x / 8) as i32, y: (y / 8) as i32, unit: TileSpace }
}

/// The filled tiles met stepping from pixel `x` to `max_x` by 8 on pixel row `y`.
pub open spec fn row_hits<T>(g: TileGrid<T>, empty: T, x: int, y: int, max_x: int) -> Seq<TilePoint>
    decreases max_x - x,
{
    if x >= max_x {
        Seq::empty()
    } else {
        let here = if filled(spec_get(g, tile_of(x, y)), empty) { seq![tile_of(x, y)] } else { Seq::empty() };
        here + (if x + 8 >= max_x { Seq::empty() } else { row_hits(g, empty, x + 8, y, max_x) })
    }
}

/// The filled tiles met stepping over the pixel box from (`x0`, `y`) to
/// (`x1`, `y1`) by 8, row by row.
pub open spec fn box_hits<T>(g: TileGrid<T>, empty: T, x0: int, y: int, x1: int, y1: int) -> Seq<TilePoint>
    decreases y1 - y,
{
    if y >= y1 {
        Seq::empty()
    } else {
        row_hits(g, empty, x0, y, x1) + (if y + 8 >= y1 { Seq::empty() } else { box_hits(g, empty, x0, y + 8, x1, y1) })
    }
}

/// The corners of `rect`, its size taken with its sign: the smaller x and y,
/// then the larger.
pub open spec fn area_corners(rect: RoomRect) -> (int, int, int, int) {
    let w = rect.size.width as int;
    let h = rect.size.height as int;
    (
        rect.origin.x + (if w < 0 { w } else { 0 }),
        rect.origin.y + (if h < 0 { h } else { 0 }),
        rect.origin.x + (if w < 0 { 0 } else { w }),
        rect.origin.y + (if h < 0 { 0 } else { h }),
    )
}

/// The part of the area with corners `a` inside a room of `w` by `h`
/// pixels, as corners, if it has an area.
pub open spec fn cropped(a: (int, int, int, int), w: int, h: int) -> Option<(int, int, int, int)> {
    let x0 = if a.0 < 0 { 0 } else { a.0 };
    let y0 = if a.1 < 0 { 0 } else { a.1 };
    let x1 = if a.2 < w { a.2 } else { w };
    let y1 = if a.3 < h { a.3 } else { h };
    if x0 < x1 && y0 < y1 { Some((x0, y0, x1, y1)) } else { None }
}

/// The filled tiles of a layer under the cropped box.
pub open spec fn tiles_under<T>(g: TileGrid<T>, empty: T, c: Option<(int, int, int, int)>) -> Seq<TilePoint> {
    match c {
        Some((x0, y0, x1, y1)) => box_hits(g, empty, x0, y0, x1, y1),
        None => Seq::empty(),
    }
}

/// Whether a hitbox overlaps the area with corners `a`: each starts before
/// the other ends, on both axes.
pub open spec fn overlaps(r: RoomRect, a: (int, int, int, int)) -> bool {
    &&& r.origin.x < a.2 && a.0 < spec_max_x(r)
    &&& r.origin.y < a.3 && a.1 < spec_max_y(r)
}

/// The candidates, in order, one of whose hitboxes overlaps the area `a`.
pub open spec fn picked(s: Seq<(AppSelection, Vec<RoomRect>)>, a: (int, int, int, int), n: nat) -> Seq<AppSelection>
    decreases n,
{
    if n == 0 {
        Seq::empty()
    } else {
        let before = picked(s, a, (n - 1) as nat);
        if exists|i: int| 0 <= i < s[n - 1].1@.len() && overlaps(#[trigger] s[n - 1].1@[i], a) {
            before.push(s[n - 1].0)
        } else {
            before
        }
    }
}

fn tiles_in_char(g: &TileGrid<char>, x0: i64, y0: i64, x1: i64, y1: i64) -> (out: Vec<TilePoint>)
    requires
        0 <= x0 <= x1 <= i32::MAX,
        0 <= y0 <= y1 <= i32::MAX,
    ensures
        out@ == box_hits(*g, '0', x0 as int, y0 as int, x1 as int, y1 as int),
{
    let mut out: Vec<TilePoint> = Vec::new();
    let mut y = y0;
    while y < y1
        invariant
            0 <= x0 <= x1 <= i32::MAX,
            0 <= y0 <= y < y1 + 8,
            y1 <= i32::MAX,
            out@ + box_hits(*g, '0', x0 as int, y as int, x1 as int, y1 as int)
                == box_hits(*g, '0', x0 as int, y0 as int, x1 as int, y1 as int),
        decreases y1 + 8 - y,
    {
        let ghost row_start = out@;
        let mut x = x0;
        while x < x1
            invariant
                0 <= x0 <= x < x1 + 8,
                x1 <= i32::MAX,
                0 <= y0 <= y < y1,
                y1 <= i32::MAX,
                out@ + row_hits(*g, '0', x as int, y as int, x1 as int) == row_start + row_hits(*g, '0', x0 as int, y as int, x1 as int),
            decreases x1 + 8 - x,
        {
            let t: TilePoint = Point2D { x: (x / 8) as i32, y: (y / 8) as i32, unit: TileSpace };
            let ghost before = out@;
            let got = g.get(t);
            let hit = match got {
                Some(c) => *c != '0',
                None => false,
            };
            proof {
                match got {
                    Some(c) => {
                        assert(spec_get(*g, t) == Some(*c));
                    },
                    None => {
                        assert(spec_get(*g, t) is None);
                    },
                }
            }
            if hit {
                out.push(t);
            }
            proof {
                assert(t == tile_of(x as int, y as int));
                assert(filled(spec_get(*g, t), '0') == hit);
                let here = if hit { seq![t] } else { Seq::<TilePoint>::empty() };
                assert(row_hits(*g, '0', x as int, y as int, x1 as int) == here + row_hits(*g, '0', x + 8, y as int, x1 as int));
                assert(out@ == before + here);
                assert(before + (here + row_hits(*g, '0', x + 8, y as int, x1 as int))
                    =~= (before + here) + row_hits(*g, '0', x + 8, y as int, x1 as int));
            }
            x = x + 8;
        }
        proof {
            assert(row_hits(*g, '0', x as int, y as int, x1 as int) =~= Seq::<TilePoint>::empty());
            assert(out@ =~= row_start + row_hits(*g, '0', x0 as int, y as int, x1 as int));
            assert(box_hits(*g, '0', x0 as int, y as int, x1 as int, y1 as int)
                == row_hits(*g, '0', x0 as int, y as int, x1 as int) + box_hits(*g, '0', x0 as int, y + 8, x1 as int, y1 as int));
            assert(row_start + (row_hits(*g, '0', x0 as int, y as int, x1 as int) + box_hits(*g, '0', x0 as int, y + 8, x1 as int, y1 as int))
                =~= out@ + box_hits(*g, '0', x0 as int, y + 8, x1 as int, y1 as int));
        }
        y = y + 8;
    }
    proof {
        assert(box_hits(*g, '0', x0 as int, y as int, x1 as int, y1 as int) =~= Seq::<TilePoint>::empty());
        assert(out@ =~= out@ + Seq::<TilePoint>::empty());
    }
    out
}

fn tiles_in_obj(g: &TileGrid<i32>, x0: i64, y0: i64, x1: i64, y1: i64) -> (out: Vec<TilePoint>)
    requires
        0 <= x0 <= x1 <= i32::MAX,
        0 <= y0 <= y1 <= i32::MAX,
    ensures
        out@ == box_hits(*g, -1i32, x0 as int, y0 as int, x1 as int, y1 as int),
{
    let mut out: Vec<TilePoint> = Vec::new();
    let mut y = y0;
    while y < y1
        invariant
            0 <= x0 <= x1 <= i32::MAX,
            0 <= y0 <= y < y1 + 8,
            y1 <= i32::MAX,
            out@ + box_hits(*g, -1i32, x0 as int, y as int, x1 as int, y1 as int)
                == box_hits(*g, -1i32, x0 as int, y0 as int, x1 as int, y1 as int),
        decreases y1 + 8 - y,
    {
        let ghost row_start = out@;
        let mut x = x0;
        while x < x1
            invariant
                0 <= x0 <= x < x1 + 8,
                x1 <= i32::MAX,
                0 <= y0 <= y < y1,
                y1 <= i32::MAX,
                out@ + row_hits(*g, -1i32, x as int, y as int, x1 as int) == row_start + row_hits(*g, -1i32, x0 as int, y as int, x1 as int),
            decreases x1 + 8 - x,
        {
            let t: TilePoint = Point2D { x: (x / 8) as i32, y: (y / 8) as i32, unit: TileSpace };
            let ghost before = out@;
            let got = g.get(t);
            let hit = match got {
                Some(c) => *c != -1,
                None => false,
            };
            proof {
                match got {
                    Some(c) => {
                        assert(spec_get(*g, t) == Some(*c));
                    },
                    None => {
                        assert(spec_get(*g, t) is None);
                    },
                }
            }
            if hit {
                out.push(t);
            }
            proof {
                assert(t == tile_of(x as int, y as int));
                assert(filled(spec_get(*g, t), -1i32) == hit);
                let here = if hit { seq![t] } else { Seq::<TilePoint>::empty() };
                assert(row_hits(*g, -1i32, x as int, y as int, x1 as int) == here + row_hits(*g, -1i32, x + 8, y as int, x1 as int));
                assert(out@ == before + here);
                assert(before + (here + row_hits(*g, -1i32, x + 8, y as int, x1 as int))
                    =~= (before + here) + row_hits(*g, -1i32, x + 8, y as int, x1 as int));
            }
            x = x + 8;
        }
        proof {
            assert(row_hits(*g, -1i32, x as int, y as int, x1 as int) =~= Seq::<TilePoint>::empty());
            assert(out@ =~= row_start + row_hits(*g, -1i32, x0 as int, y as int, x1 as int));
            assert(box_hits(*g, -1i32, x0 as int, y as int, x1 as int, y1 as int)
                == row_hits(*g, -1i32, x0 as int, y as int, x1 as int) + box_hits(*g, -1i32, x0 as int, y + 8, x1 as int, y1 as int));
            assert(row_start + (row_hits(*g, -1i32, x0 as int, y as int, x1 as int) + box_hits(*g, -1i32, x0 as int, y + 8, x1 as int, y1 as int))
                =~= out@ + box_hits(*g, -1i32, x0 as int, y + 8, x1 as int, y1 as int));
        }
        y = y + 8;
    }
    proof {
        assert(box_hits(*g, -1i32, x0 as int, y as int, x1 as int, y1 as int) =~= Seq::<TilePoint>::empty());
        assert(out@ =~= out@ + Seq::<TilePoint>::empty());
    }
    out
}

/// Whether a selection area concerns `l`.
pub open spec fn on_layer(layer: Layer, l: Layer) -> bool {
    layer == l || layer == Layer::All
}

/// Tile positions as selections of a layer.
pub open spec fn as_tiles(ts: Seq<TilePoint>, kind: Layer) -> Seq<AppSelection> {
    ts.map_values(|t: TilePoint| if kind == Layer::FgTiles { AppSelection::FgTile(t) }
        else if kind == Layer::BgTiles { AppSelection::BgTile(t) } else { AppSelection::ObjectTile(t) })
}

/// What an area selection picks on `layer`: the foreground decals, object
/// tiles, foreground tiles, entities (nodes and bodies), triggers, background
/// decals and background tiles, in that order, each group only where the
/// layer is its own or all layers. Tiles count under the part of the area
/// inside the room, stepped by 8 pixels from its corner; the other
/// candidates count where one of their hitboxes overlaps the area.
pub open spec fn area_selection(
    room: Room,
    layer: Layer,
    rect: RoomRect,
    fg_decals: Seq<(AppSelection, Vec<RoomRect>)>,
    entities: Seq<(AppSelection, Vec<RoomRect>)>,
    triggers: Seq<(AppSelection, Vec<RoomRect>)>,
    bg_decals: Seq<(AppSelection, Vec<RoomRect>)>,
) -> Seq<AppSelection> {
    let a = area_corners(rect);
    let c = cropped(a, room.bounds.size.width as int, room.bounds.size.height as int);
    (if on_layer(layer, Layer::FgDecals) { picked(fg_decals, a, fg_decals.len()) } else { Seq::empty() })
    + (if on_layer(layer, Layer::ObjectTiles) { as_tiles(tiles_under(room.object_tiles, -1i32, c), Layer::ObjectTiles) } else { Seq::empty() })
    + (if on_layer(layer, Layer::FgTiles) { as_tiles(tiles_under(room.solids, '0', c), Layer::FgTiles) } else { Seq::empty() })
    + (if on_layer(layer, Layer::Entities) { picked(entities, a, entities.len()) } else { Seq::empty() })
    + (if on_layer(layer, Layer::Triggers) { picked(triggers, a, triggers.len()) } else { Seq::empty() })
    + (if on_layer(layer, Layer::BgDecals) { picked(bg_decals, a, bg_decals.len()) } else { Seq::empty() })
    + (if on_layer(layer, Layer::BgTiles) { as_tiles(tiles_under(room.bg, '0', c), Layer::BgTiles) } else { Seq::empty() })
}

fn overlaps_any(boxes: &Vec<RoomRect>, x0: i64, y0: i64, x1: i64, y1: i64) -> (r: bool)
    ensures
        r == exists|i: int| 0 <= i < boxes@.len() && overlaps(#[trigger] boxes@[i], (x0 as int, y0 as int, x1 as int, y1 as int)),
{
    let ghost a = (x0 as int, y0 as int, x1 as int, y1 as int);
    let mut i: usize = 0;
    while i < boxes.len()
        invariant
            i <= boxes@.len(),
            a == (x0 as int, y0 as int, x1 as int, y1 as int),
            forall|j: int| 0 <= j < i ==> !overlaps(#[trigger] boxes@[j], a),
        decreases boxes@.len() - i,
    {
        let b = boxes[i];
        let bx0 = b.origin.x as i64;
        let by0 = b.origin.y as i64;
        let bx1 = bx0 + b.size.width as i64;
        let by1 = by0 + b.size.height as i64;
        if bx0 < x1 && x0 < bx1 && by0 < y1 && y0 < by1 {
            assert(overlaps(boxes@[i as int], a));
            return true;
        }
        i = i + 1;
    }
    false
}

fn push_picked(out: &mut Vec<AppSelection>, cands: &Vec<(AppSelection, Vec<RoomRect>)>, x0: i64, y0: i64, x1: i64, y1: i64)
    ensures
        final(out)@ == old(out)@ + picked(cands@, (x0 as int, y0 as int, x1 as int, y1 as int), cands@.len()),
{
    let ghost a = (x0 as int, y0 as int, x1 as int, y1 as int);
    let ghost start = out@;
    let mut k: usize = 0;
    while k < cands.len()
        invariant
            k <= cands@.len(),
            a == (x0 as int, y0 as int, x1 as int, y1 as int),
            out@ == start + picked(cands@, a, k as nat),
        decreases cands@.len() - k,
    {
        if overlaps_any(&cands[k].1, x0, y0, x1, y1) {
            out.push(cands[k].0);
            proof {
                assert(start + picked(cands@, a, (k + 1) as nat) =~= out@);
            }
        }
        k = k + 1;
    }
}

fn push_tiles(out: &mut Vec<AppSelection>, ts: &Vec<TilePoint>, kind: Layer)
    ensures
        final(out)@ == old(out)@ + as_tiles(ts@, kind),
{
    let ghost start = out@;
    let mut k: usize = 0;
    while k < ts.len()
        invariant
            k <= ts@.len(),
            out@ == start + as_tiles(ts@.subrange(0, k as int), kind),
        decreases ts@.len() - k,
    {
        let t = ts[k];
        let sel = if kind == Layer::FgTiles { AppSelection::FgTile(t) }
            else if kind == Layer::BgTiles { AppSelection::BgTile(t) } else { AppSelection::ObjectTile(t) };
        out.push(sel);
        proof {
            assert(as_tiles(ts@.subrange(0, k + 1), kind) =~= as_tiles(ts@.subrange(0, k as int), kind).push(sel));
        }
        k = k + 1;
    }
    proof {
        assert(ts@.subrange(0, ts@.len() as int) =~= ts@);
    }
}

/// The selectables of `layer` that the area `rect` (in room pixels, its size
/// taken with its sign) takes in. The entity, trigger, node and decal
/// candidates come with their hitboxes, which the caller works out from the
/// entity configurations and decal sprites. Corners are computed wide
/// enough that no input overflows.
pub fn selectables_in(
    room: &Room,
    layer: Layer,
    rect: RoomRect,
    fg_decals: &Vec<(AppSelection, Vec<RoomRect>)>,
    entities: &Vec<(AppSelection, Vec<RoomRect>)>,
    triggers: &Vec<(AppSelection, Vec<RoomRect>)>,
    bg_decals: &Vec<(AppSelection, Vec<RoomRect>)>,
) -> (out: Vec<AppSelection>)
    ensures
        out@ == area_selection(*room, layer, rect, fg_decals@, entities@, triggers@, bg_decals@),
{
    let ow = rect.size.width as i64;
    let oh = rect.size.height as i64;
    let ax0 = rect.origin.x as i64 + (if ow < 0 { ow } else { 0 });
    let ay0 = rect.origin.y as i64 + (if oh < 0 { oh } else { 0 });
    let ax1 = rect.origin.x as i64 + (if ow < 0 { 0 } else { ow });
    let ay1 = rect.origin.y as i64 + (if oh < 0 { 0 } else { oh });
    let w = room.bounds.size.width as i64;
    let h = room.bounds.size.height as i64;
    let x0 = if ax0 < 0 { 0 } else { ax0 };
    let y0 = if ay0 < 0 { 0 } else { ay0 };
    let x1 = if ax1 < w { ax1 } else { w };
    let y1 = if ay1 < h { ay1 } else { h };
    let has_area = x0 < x1 && y0 < y1;
    let mut out: Vec<AppSelection> = Vec::new();
    if layer == Layer::FgDecals || layer == Layer::All {
        push_picked(&mut out, fg_decals, ax0, ay0, ax1, ay1);
    }
    if layer == Layer::ObjectTiles || layer == Layer::All {
        if has_area {
            let ts = tiles_in_obj(&room.object_tiles, x0, y0, x1, y1);
            push_tiles(&mut out, &ts, Layer::ObjectTiles);
        }
    }
    if layer == Layer::FgTiles || layer == Layer::All {
        if has_area {
            let ts = tiles_in_char(&room.solids, x0, y0, x1, y1);
            push_tiles(&mut out, &ts, Layer::FgTiles);
        }
    }
    if layer == Layer::Entities || layer == Layer::All {
        push_picked(&mut out, entities, ax0, ay0, ax1, ay1);
    }
    if layer == Layer::Triggers || layer == Layer::All {
        push_picked(&mut out, triggers, ax0, ay0, ax1, ay1);
    }
    if layer == Layer::BgDecals || layer == Layer::All {
        push_picked(&mut out, bg_decals, ax0, ay0, ax1, ay1);
    }
    if layer == Layer::BgTiles || layer == Layer::All {
        if has_area {
            let ts = tiles_in_char(&room.bg, x0, y0, x1, y1);
            push_tiles(&mut out, &ts, Layer::BgTiles);
        }
    }
    proof {
        assert(out@ =~= area_selection(*room, layer, rect, fg_decals@, entities@, triggers@, bg_decals@));
    }
    out
}

/// The nodes `0..n` of an entity, as selections.
pub open spec fn node_run(id: i32, trigger: bool, n: nat) -> Seq<AppSelection>
    decreases n,
{
    if n == 0 {
        Seq::empty()
    } else {
        node_run(id, trigger, (n - 1) as nat).push(AppSelection::EntityNode(id, (n - 1) as usize, trigger))
    }
}

/// What the first `n` selected items grow to when a node is selected: each
/// selected node brings its entity's body and all of its nodes.
pub open spec fn elaborated(room: Room, sel: Seq<AppSelection>, n: nat) -> Seq<AppSelection>
    decreases n,
{
    if n == 0 {
        Seq::empty()
    } else {
        let before = elaborated(room, sel, (n - 1) as nat);
        match sel[n - 1] {
            AppSelection::EntityNode(id, _, trigger) => {
                let e = ents(room, trigger)[first_entity(ents(room, trigger), id)->0];
                before.push(AppSelection::EntityBody(id, trigger)) + node_run(id, trigger, e.nodes@.len())
            },
            _ => before,
        }
    }
}

/// Whether every selected node belongs to an entity or trigger of the room.
pub open spec fn nodes_exist(room: Room, sel: Seq<AppSelection>) -> bool {
    forall|k: int| 0 <= k < sel.len() ==> (#[trigger] sel[k] matches AppSelection::EntityNode(id, _, trigger)
        ==> first_entity(ents(room, trigger), id) is Some)
}

/// The selection that selecting nodes grows to: for each selected node, its
/// entity's body and every node of that entity, in selection order (the
/// editor keeps the selection as a set).
pub fn elaborate_nodes(room: &Room, sel: &Vec<AppSelection>) -> (out: Vec<AppSelection>)
    requires
        nodes_exist(*room, sel@),
    ensures
        out@ == elaborated(*room, sel@, sel@.len()),
{
    let mut out: Vec<AppSelection> = Vec::new();
    let mut k: usize = 0;
    while k < sel.len()
        invariant
            k <= sel@.len(),
            nodes_exist(*room, sel@),
            out@ == elaborated(*room, sel@, k as nat),
        decreases sel@.len() - k,
    {
        match sel[k] {
            AppSelection::EntityNode(id, _, trigger) => {
                assert(sel@[k as int] matches AppSelection::EntityNode(id, _, trigger));
                let i = match find_in_room(room, trigger, id) {
                    Some(i) => i,
                    None => 0,
                };
                let count = if trigger { room.triggers[i].nodes.len() } else { room.entities[i].nodes.len() };
                let ghost before = out@;
                out.push(AppSelection::EntityBody(id, trigger));
                let mut n: usize = 0;
                while n < count
                    invariant
                        n <= count,
                        out@ == before.push(AppSelection::EntityBody(id, trigger)) + node_run(id, trigger, n as nat),
                    decreases count - n,
                {
                    out.push(AppSelection::EntityNode(id, n, trigger));
                    proof {
                        assert(before.push(AppSelection::EntityBody(id, trigger)) + node_run(id, trigger, (n + 1) as nat)
                            =~= (before.push(AppSelection::EntityBody(id, trigger)) + node_run(id, trigger, n as nat))
                                .push(AppSelection::EntityNode(id, n, trigger)));
                    }
                    n = n + 1;
                }
            },
            _ => {},
        }
        k = k + 1;
    }
    out
}
} // verus!
