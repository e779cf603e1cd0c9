use vstd::prelude::*;
use crate::room::{Room, RoomAction, ents, first_entity, find_in_room};
use crate::selection::AppSelection;
use crate::tile_grid::{TileGrid, spec_get};
use crate::tiles::{
    LevelFloatState, TileFloat, add_to_float, box_within, can_grow, float_at, float_wf, grown_box, rows,
};
use crate::units::{TilePoint, fits_i32};

verus! {

/// Whether a box, given by its corner and size, has a positive size and
/// its corners, far edges and area fit in `i32`.
pub open spec fn box_fits(b: (int, int, int, int)) -> bool {
    &&& fits_i32(b.0) && fits_i32(b.1) && fits_i32(b.0 + b.2) && fits_i32(b.1 + b.3)
    &&& 1 <= b.2 && 1 <= b.3 && fits_i32(b.2 * b.3)
}

/// Whether `p` lies in the box `b`.
pub open spec fn in_box(p: TilePoint, b: (int, int, int, int)) -> bool {
    b.0 <= p.x < b.0 + b.2 && b.1 <= p.y < b.1 + b.3
}

/// Whether the points of `pts` that `g` holds lie in a box that a float can
/// span: its corners, far edges and area fit in `i32`. The others are never
/// lifted.
pub open spec fn lifts_fit<T>(g: TileGrid<T>, pts: Seq<TilePoint>) -> bool {
    exists|b: (int, int, int, int)| box_fits(b)
        && forall|k: int| 0 <= k < pts.len() && (spec_get(g, #[trigger] pts[k]) is Some) ==> in_box(pts[k], b)
}

/// Whether a float, where there is one, has a grid of positive width.
pub open spec fn float_shaped<T>(f: TileFloat<T>) -> bool {
    f matches Some((o, g)) ==> 0 < g.stride && 0 <= rows(g)
}

/// Whether a float, where there is one, lies in the box `b`.
pub open spec fn float_within<T>(f: TileFloat<T>, b: (int, int, int, int)) -> bool {
    f matches Some((o, g)) ==> box_within((o.x as int, o.y as int, g.stride as int, rows(g)), b)
}

proof fn lemma_grow_within<T>(f: TileFloat<T>, pt: TilePoint, b: (int, int, int, int))
    requires
        box_fits(b),
        in_box(pt, b),
        float_shaped(f),
        float_within(f, b),
    ensures
        can_grow(f, pt),
        box_within(grown_box(f, pt), b),
{
    let (nx, ny, nw, nh) = grown_box(f, pt);
    assert(b.2 <= b.2 * b.3 && b.3 <= b.2 * b.3) by (nonlinear_arith) requires 1 <= b.2, 1 <= b.3;
    assert(1 <= nw <= b.2 && 1 <= nh <= b.3);
    assert(nw * nh <= b.2 * b.3) by (nonlinear_arith) requires 1 <= nw <= b.2, 1 <= nh <= b.3;
    assert(nw * nh >= 0) by (nonlinear_arith) requires 1 <= nw, 1 <= nh;
}

/// What lifting the tiles at `pts[..n]` off `g` leaves at `(x, y)`: the tile
/// of `g` there when one of those points is `(x, y)` and inside the grid,
/// else the filler.
pub open spec fn lifted<T>(g: TileGrid<T>, pts: Seq<TilePoint>, filler: T, n: nat, x: int, y: int) -> T
    decreases n,
{
    if n == 0 {
        filler
    } else {
        let p = pts[n - 1];
        if p.x == x && p.y == y && spec_get(g, p) is Some {
            spec_get(g, p)->0
        } else {
            lifted(g, pts, filler, (n - 1) as nat, x, y)
        }
    }
}

/// Lifts the tiles at `pts` off `grid` into a float, holes left as `filler`.
fn lift_points<T: Copy>(grid: &TileGrid<T>, pts: &Vec<TilePoint>, filler: T) -> (f: TileFloat<T>)
    requires
        lifts_fit(*grid, pts@),
    ensures
        float_shaped(f),
        float_wf(f),
        forall|x: int, y: int| #[trigger] float_at(f, filler, x, y) == lifted(*grid, pts@, filler, pts@.len(), x, y),
{
    let ghost b = choose|b: (int, int, int, int)| box_fits(b)
        && forall|k: int| 0 <= k < pts@.len() && (spec_get(*grid, #[trigger] pts@[k]) is Some) ==> in_box(pts@[k], b);
    let mut f: TileFloat<T> = None;
    let mut k: usize = 0;
    while k < pts.len()
        invariant
            k <= pts@.len(),
            box_fits(b),
            forall|j: int| 0 <= j < pts@.len() && (spec_get(*grid, #[trigger] pts@[j]) is Some) ==> in_box(pts@[j], b),
            float_shaped(f),
            float_within(f, b),
            float_wf(f),
            forall|x: int, y: int| #[trigger] float_at(f, filler, x, y) == lifted(*grid, pts@, filler, k as nat, x, y),
        decreases pts@.len() - k,
    {
        let p = pts[k];
        let src = grid.get(p);
        proof {
            if src is Some {
                assert(spec_get(*grid, pts@[k as int]) is Some);
                lemma_grow_within(f, p, b);
            }
        }
        let ghost before = f;
        add_to_float(&mut f, p, src, filler);
        proof {
            assert forall|x: int, y: int| #[trigger] float_at(f, filler, x, y)
                == lifted(*grid, pts@, filler, (k + 1) as nat, x, y) by {
                assert(float_at(before, filler, x, y) == lifted(*grid, pts@, filler, k as nat, x, y));
            }
        }
        k = k + 1;
    }
    f
}


/// The selected tiles of one layer (0 the foreground, 1 the background, 2
/// the object tiles) among the first `n` selected items, in order.
pub open spec fn tile_pts(sel: Seq<AppSelection>, which: int, n: nat) -> Seq<TilePoint>
    decreases n,
{
    if n == 0 {
        Seq::empty()
    } else {
        let before = tile_pts(sel, which, (n - 1) as nat);
        match sel[n - 1] {
            AppSelection::FgTile(p) => if which == 0 { before.push(p) } else { before },
            AppSelection::BgTile(p) => if which == 1 { before.push(p) } else { before },
            AppSelection::ObjectTile(p) => if which == 2 { before.push(p) } else { before },
            _ => before,
        }
    }
}

/// Whether a selected item is a tile of a layer.
pub open spec fn is_tile(s: AppSelection) -> bool {
    s is FgTile || s is BgTile || s is ObjectTile
}

/// The selected tiles among the first `n` selected items, in order.
pub open spec fn tile_sels(sel: Seq<AppSelection>, n: nat) -> Seq<AppSelection>
    decreases n,
{
    if n == 0 {
        Seq::empty()
    } else {
        let before = tile_sels(sel, (n - 1) as nat);
        if is_tile(sel[n - 1]) { before.push(sel[n - 1]) } else { before }
    }
}

/// Whether `a` empties the tile that `s` selects: '0' for terrain, -1 for
/// an object tile.
pub open spec fn clears(a: RoomAction, s: AppSelection) -> bool {
    match s {
        AppSelection::FgTile(p) => a matches RoomAction::TileUpdate { fg, offset, data }
            && fg && offset == p && data.tiles@ == seq!['0'] && data.stride == 1,
        AppSelection::BgTile(p) => a matches RoomAction::TileUpdate { fg, offset, data }
            && !fg && offset == p && data.tiles@ == seq!['0'] && data.stride == 1,
        AppSelection::ObjectTile(p) => a matches RoomAction::ObjectTileUpdate { offset, data }
            && offset == p && data.tiles@ == seq![-1i32] && data.stride == 1,
        _ => false,
    }
}

/// Whether the selected tiles of each layer can be lifted into a float.
pub open spec fn tiles_fit(room: Room, sel: Seq<AppSelection>) -> bool {
    &&& lifts_fit(room.solids, tile_pts(sel, 0, sel.len()))
    &&& lifts_fit(room.bg, tile_pts(sel, 1, sel.len()))
    &&& lifts_fit(room.object_tiles, tile_pts(sel, 2, sel.len()))
}

/// A grid of the one tile `t`.
fn single<T>(t: T) -> (g: TileGrid<T>)
    ensures
        g.tiles@ == seq![t],
        g.stride == 1,
{
    let mut tiles: Vec<T> = Vec::new();
    tiles.push(t);
    TileGrid { tiles, stride: 1 }
}

/// Whether lifting the selected tiles `sel` off `room` gives the floats `f`,
/// the room edits `edits` and the lifted selections `taken`: each float
/// holds, within its bounds, the lifted tiles of its layer (holes where
/// none was selected), the lifted selections are the selected tiles in
/// order, and each edit empties one of them.
pub open spec fn lifts(room: Room, sel: Seq<AppSelection>, f: LevelFloatState, edits: Seq<RoomAction>, taken: Seq<AppSelection>) -> bool {
    &&& float_shaped(f.fg) && float_wf(f.fg)
    &&& float_shaped(f.bg) && float_wf(f.bg)
    &&& float_shaped(f.obj) && float_wf(f.obj)
    &&& forall|x: int, y: int| #[trigger] float_at(f.fg, '\0', x, y)
        == lifted(room.solids, tile_pts(sel, 0, sel.len()), '\0', tile_pts(sel, 0, sel.len()).len(), x, y)
    &&& forall|x: int, y: int| #[trigger] float_at(f.bg, '\0', x, y)
        == lifted(room.bg, tile_pts(sel, 1, sel.len()), '\0', tile_pts(sel, 1, sel.len()).len(), x, y)
    &&& forall|x: int, y: int| #[trigger] float_at(f.obj, -2i32, x, y)
        == lifted(room.object_tiles, tile_pts(sel, 2, sel.len()), -2i32, tile_pts(sel, 2, sel.len()).len(), x, y)
    &&& taken == tile_sels(sel, sel.len())
    &&& edits.len() == taken.len()
    &&& forall|j: int| 0 <= j < edits.len() ==> clears(#[trigger] edits[j], taken[j])
}

/// Lifts the selected tiles off the room into floats, layer by layer: the
/// tiles come along (holes are `'\0'`, `-2` for object tiles), an edit
/// empties each lifted tile in the room, and the lifted tiles leave the
/// selection.
pub fn float_tiles(room: &Room, sel: &Vec<AppSelection>) -> (r: (LevelFloatState, Vec<RoomAction>, Vec<AppSelection>))
    requires
        tiles_fit(*room, sel@),
    ensures
        lifts(*room, sel@, r.0, r.1@, r.2@),
{
    let mut fg_pts: Vec<TilePoint> = Vec::new();
    let mut bg_pts: Vec<TilePoint> = Vec::new();
    let mut obj_pts: Vec<TilePoint> = Vec::new();
    let mut edits: Vec<RoomAction> = Vec::new();
    let mut lifted_sel: Vec<AppSelection> = Vec::new();
    let mut k: usize = 0;
    while k < sel.len()
        invariant
            k <= sel@.len(),
            fg_pts@ == tile_pts(sel@, 0, k as nat),
            bg_pts@ == tile_pts(sel@, 1, k as nat),
            obj_pts@ == tile_pts(sel@, 2, k as nat),
            lifted_sel@ == tile_sels(sel@, k as nat),
            edits@.len() == lifted_sel@.len(),
            forall|j: int| 0 <= j < edits@.len() ==> clears(#[trigger] edits@[j], lifted_sel@[j]),
        decreases sel@.len() - k,
    {
        let s = sel[k];
        match s {
            AppSelection::FgTile(p) => {
                fg_pts.push(p);
                edits.push(RoomAction::TileUpdate { fg: true, offset: p, data: single('0') });
                lifted_sel.push(s);
            },
            AppSelection::BgTile(p) => {
                bg_pts.push(p);
                edits.push(RoomAction::TileUpdate { fg: false, offset: p, data: single('0') });
                lifted_sel.push(s);
            },
            AppSelection::ObjectTile(p) => {
                obj_pts.push(p);
                edits.push(RoomAction::ObjectTileUpdate { offset: p, data: single(-1i32) });
                lifted_sel.push(s);
            },
            _ => {},
        }
        k = k + 1;
    }
    let fg = lift_points(&room.solids, &fg_pts, '\0');
    let bg = lift_points(&room.bg, &bg_pts, '\0');
    let obj = lift_points(&room.object_tiles, &obj_pts, -2i32);
    (LevelFloatState { fg, bg, obj }, edits, lifted_sel)
}

/// An edit deleting the selection asks for besides emptying tiles: an
/// entity or trigger (`true`) removed, a decal (`true` in the foreground)
/// removed, or an entity or trigger left with only these nodes.
#[derive(Debug)]
pub enum DeleteEdit {
    Entity { id: i32, trigger: bool },
    Decal { id: u32, fg: bool },
    Nodes { id: i32, trigger: bool, nodes: Vec<(i32, i32)> },
}

/// Whether the body of an entity is selected.
pub open spec fn body_selected(sel: Seq<AppSelection>, id: i32, trigger: bool) -> bool {
    exists|k: int| 0 <= k < sel.len() && #[trigger] sel[k] == AppSelection::EntityBody(id, trigger)
}

/// Whether a node of an entity is selected.
pub open spec fn node_selected(sel: Seq<AppSelection>, id: i32, trigger: bool, idx: int) -> bool {
    exists|k: int| 0 <= k < sel.len() && #[trigger] sel[k] == AppSelection::EntityNode(id, idx as usize, trigger)
}

/// The first `n` nodes, without the selected ones.
pub open spec fn kept_nodes(nodes: Seq<(i32, i32)>, sel: Seq<AppSelection>, id: i32, trigger: bool, n: nat) -> Seq<(i32, i32)>
    decreases n,
{
    if n == 0 {
        Seq::empty()
    } else {
        let before = kept_nodes(nodes, sel, id, trigger, (n - 1) as nat);
        if node_selected(sel, id, trigger, n - 1) { before } else { before.push(nodes[n - 1]) }
    }
}

/// The entities and triggers with a selected node, among the first `n`
/// selected items, each once, in order of first appearance.
pub open spec fn node_owners(sel: Seq<AppSelection>, n: nat) -> Seq<(i32, bool)>
    decreases n,
{
    if n == 0 {
        Seq::empty()
    } else {
        let before = node_owners(sel, (n - 1) as nat);
        match sel[n - 1] {
            AppSelection::EntityNode(id, _, trigger) => if before.contains((id, trigger)) { before } else { before.push((id, trigger)) },
            _ => before,
        }
    }
}

/// The removals among the first `n` selected items, in order.
pub open spec fn removals(sel: Seq<AppSelection>, n: nat) -> Seq<AppSelection>
    decreases n,
{
    if n == 0 {
        Seq::empty()
    } else {
        let before = removals(sel, (n - 1) as nat);
        if sel[n - 1] is EntityBody || sel[n - 1] is Decal { before.push(sel[n - 1]) } else { before }
    }
}

/// The entities and triggers left with fewer nodes: those with a selected
/// node whose body is not selected and which the room holds.
pub open spec fn trimmed_owners(room: Room, sel: Seq<AppSelection>, owners: Seq<(i32, bool)>) -> Seq<(i32, bool)>
    decreases owners.len(),
{
    if owners.len() == 0 {
        Seq::empty()
    } else {
        let before = trimmed_owners(room, sel, owners.drop_last());
        let (id, trigger) = owners.last();
        if !body_selected(sel, id, trigger) && first_entity(ents(room, trigger), id) is Some {
            before.push((id, trigger))
        } else {
            before
        }
    }
}

fn body_in(sel: &Vec<AppSelection>, id: i32, trigger: bool) -> (r: bool)
    ensures
        r == body_selected(sel@, id, trigger),
{
    let mut k: usize = 0;
    while k < sel.len()
        invariant
            k <= sel@.len(),
            forall|j: int| 0 <= j < k ==> sel@[j] != AppSelection::EntityBody(id, trigger),
        decreases sel@.len() - k,
    {
        match sel[k] {
            AppSelection::EntityBody(i2, t2) => {
                if i2 == id && t2 == trigger {
                    assert(sel@[k as int] == AppSelection::EntityBody(id, trigger));
                    return true;
                }
            },
            _ => {},
        }
        k = k + 1;
    }
    false
}

fn node_in(sel: &Vec<AppSelection>, id: i32, trigger: bool, idx: usize) -> (r: bool)
    ensures
        r == node_selected(sel@, id, trigger, idx as int),
{
    let mut k: usize = 0;
    while k < sel.len()
        invariant
            k <= sel@.len(),
            forall|j: int| 0 <= j < k ==> sel@[j] != AppSelection::EntityNode(id, idx, trigger),
        decreases sel@.len() - k,
    {
        match sel[k] {
            AppSelection::EntityNode(i2, n2, t2) => {
                if i2 == id && n2 == idx && t2 == trigger {
                    assert(sel@[k as int] == AppSelection::EntityNode(id, idx, trigger));
                    return true;
                }
            },
            _ => {},
        }
        k = k + 1;
    }
    false
}

fn pair_in(v: &Vec<(i32, bool)>, p: (i32, bool)) -> (r: bool)
    ensures
        r == v@.contains(p),
{
    let mut k: usize = 0;
    while k < v.len()
        invariant
            k <= v@.len(),
            forall|j: int| 0 <= j < k ==> v@[j] != p,
        decreases v@.len() - k,
    {
        if v[k].0 == p.0 && v[k].1 == p.1 {
            return true;
        }
        k = k + 1;
    }
    false
}

fn kept(nodes: &Vec<(i32, i32)>, sel: &Vec<AppSelection>, id: i32, trigger: bool) -> (r: Vec<(i32, i32)>)
    ensures
        r@ == kept_nodes(nodes@, sel@, id, trigger, nodes@.len()),
{
    let mut r: Vec<(i32, i32)> = Vec::new();
    let mut k: usize = 0;
    while k < nodes.len()
        invariant
            k <= nodes@.len(),
            r@ == kept_nodes(nodes@, sel@, id, trigger, k as nat),
        decreases nodes@.len() - k,
    {
        if !node_in(sel, id, trigger, k) {
            r.push(nodes[k]);
        }
        k = k + 1;
    }
    r
}

/// The owner of each selected node, each once, in order of first appearance.
fn owners_of(sel: &Vec<AppSelection>) -> (r: Vec<(i32, bool)>)
    ensures
        r@ == node_owners(sel@, sel@.len()),
{
    let mut r: Vec<(i32, bool)> = Vec::new();
    let mut k: usize = 0;
    while k < sel.len()
        invariant
            k <= sel@.len(),
            r@ == node_owners(sel@, k as nat),
        decreases sel@.len() - k,
    {
        match sel[k] {
            AppSelection::EntityNode(id, _, trigger) => {
                if !pair_in(&r, (id, trigger)) {
                    r.push((id, trigger));
                }
            },
            _ => {},
        }
        k = k + 1;
    }
    r
}

/// Whether `e` leaves `owner` with its nodes that are not selected.
pub open spec fn leaves_nodes(room: Room, sel: Seq<AppSelection>, e: DeleteEdit, owner: (i32, bool)) -> bool {
    let (id, trigger) = owner;
    let entity = ents(room, trigger)[first_entity(ents(room, trigger), id)->0];
    e matches DeleteEdit::Nodes { id: id2, trigger: trigger2, nodes }
        && id2 == id && trigger2 == trigger && nodes@ == kept_nodes(entity.nodes@, sel, id, trigger, entity.nodes@.len())
}

/// Whether `e` is the edit that removes the selected `s`.
pub open spec fn removes(e: DeleteEdit, s: AppSelection) -> bool {
    match s {
        AppSelection::EntityBody(id, trigger) => e == DeleteEdit::Entity { id, trigger },
        AppSelection::Decal(id, fg) => e == DeleteEdit::Decal { id, fg },
        _ => false,
    }
}

/// The edits deleting the selection asks for besides emptying its tiles:
/// each selected entity, trigger and decal is removed, in selection order;
/// then each entity or trigger with selected nodes, whose body is not
/// selected, is left with its other nodes.
pub fn delete_edits(room: &Room, sel: &Vec<AppSelection>) -> (out: Vec<DeleteEdit>)
    ensures
        ({
            let rm = removals(sel@, sel@.len());
            let tr = trimmed_owners(*room, sel@, node_owners(sel@, sel@.len()));
            &&& out@.len() == rm.len() + tr.len()
            &&& forall|j: int| 0 <= j < rm.len() ==> removes(#[trigger] out@[j], rm[j])
            &&& forall|j: int| 0 <= j < tr.len() ==> leaves_nodes(*room, sel@, #[trigger] out@[rm.len() + j], tr[j])
        }),
{
    let mut out: Vec<DeleteEdit> = Vec::new();
    let mut k: usize = 0;
    while k < sel.len()
        invariant
            k <= sel@.len(),
            out@.len() == removals(sel@, k as nat).len(),
            forall|j: int| 0 <= j < out@.len() ==> removes(#[trigger] out@[j], removals(sel@, k as nat)[j]),
        decreases sel@.len() - k,
    {
        match sel[k] {
            AppSelection::EntityBody(id, trigger) => out.push(DeleteEdit::Entity { id, trigger }),
            AppSelection::Decal(id, fg) => out.push(DeleteEdit::Decal { id, fg }),
            _ => {},
        }
        proof {
            let before = removals(sel@, k as nat);
            let now = removals(sel@, (k + 1) as nat);
            assert forall|j: int| 0 <= j < out@.len() implies removes(#[trigger] out@[j], now[j]) by {
                if j < before.len() {
                    assert(now[j] == before[j]);
                }
            }
        }
        k = k + 1;
    }
    let ghost rm_len = out@.len();
    let owners = owners_of(sel);
    let ghost start = out@;
    let mut i: usize = 0;
    while i < owners.len()
        invariant
            i <= owners@.len(),
            owners@ == node_owners(sel@, sel@.len()),
            rm_len == removals(sel@, sel@.len()).len(),
            out@.len() == rm_len + trimmed_owners(*room, sel@, owners@.subrange(0, i as int)).len(),
            forall|j: int| 0 <= j < rm_len ==> #[trigger] out@[j] == start[j],
            forall|j: int| 0 <= j < trimmed_owners(*room, sel@, owners@.subrange(0, i as int)).len() ==>
                leaves_nodes(*room, sel@, #[trigger] out@[rm_len + j], trimmed_owners(*room, sel@, owners@.subrange(0, i as int))[j]),
        decreases owners@.len() - i,
    {
        let (id, trigger) = owners[i];
        let ghost tr0 = trimmed_owners(*room, sel@, owners@.subrange(0, i as int));
        proof {
            assert(owners@.subrange(0, i + 1).drop_last() =~= owners@.subrange(0, i as int));
            assert(owners@.subrange(0, i + 1).last() == (id, trigger));
        }
        if !body_in(sel, id, trigger) {
            match find_in_room(room, trigger, id) {
                Some(at) => {
                    let nodes = if trigger { kept(&room.triggers[at].nodes, sel, id, trigger) }
                        else { kept(&room.entities[at].nodes, sel, id, trigger) };
                    out.push(DeleteEdit::Nodes { id, trigger, nodes });
                },
                None => {},
            }
        }
        proof {
            let tr1 = trimmed_owners(*room, sel@, owners@.subrange(0, i + 1));
            assert forall|j: int| 0 <= j < tr1.len() implies leaves_nodes(*room, sel@, #[trigger] out@[rm_len + j], tr1[j]) by {
                if j < tr0.len() {
                    assert(tr1[j] == tr0[j]);
                }
            }
        }
        i = i + 1;
    }
    proof {
        assert(owners@.subrange(0, owners@.len() as int) =~= owners@);
    }
    out
}

/// A lifted-tile layer of a room.
#[derive(Copy, Clone, Debug, PartialEq, Eq, Structural)]
pub enum FloatLayer {
    Fg,
    Bg,
    Obj,
}

/// What deleting the selection asks for, in order.
#[derive(Debug)]
pub enum SelectionEdit {
    /// An edit of the room: here, emptying a lifted tile.
    Room(RoomAction),
    /// Take these out of the selection.
    Deselect(Vec<AppSelection>),
    /// Remove an entity, trigger or decal, or trim an entity's nodes.
    Delete(DeleteEdit),
    /// Drop the lifted tiles of a layer.
    ClearFloat(FloatLayer),
    /// Empty the selection.
    ClearSelection,
}

fn count_removals(sel: &Vec<AppSelection>) -> (n: usize)
    ensures
        n == removals(sel@, sel@.len()).len(),
{
    let mut n: usize = 0;
    let mut k: usize = 0;
    while k < sel.len()
        invariant
            k <= sel@.len(),
            n == removals(sel@, k as nat).len(),
            n <= k,
        decreases sel@.len() - k,
    {
        match sel[k] {
            AppSelection::EntityBody(..) => { n = n + 1; },
            AppSelection::Decal(..) => { n = n + 1; },
            _ => {},
        }
        k = k + 1;
    }
    n
}

/// Whether `out` is what deleting the selection `sel` of `room` asks for:
/// emptying each selected tile, deselecting those tiles, removing each
/// selected entity, trigger and decal, dropping the three layers of lifted
/// tiles, trimming the nodes of entities whose body is not selected, and
/// emptying the selection.
pub open spec fn deletes_selection(room: Room, sel: Seq<AppSelection>, out: Seq<SelectionEdit>) -> bool {
    let ts = tile_sels(sel, sel.len());
    let rm = removals(sel, sel.len());
    let tr = trimmed_owners(room, sel, node_owners(sel, sel.len()));
    let b1 = ts.len() as int;
    let b2 = b1 + 1 + rm.len();
    let b3 = b2 + 3;
    &&& out.len() == b3 + tr.len() + 1
    &&& forall|j: int| 0 <= j < b1 ==> (#[trigger] out[j] matches SelectionEdit::Room(a) && clears(a, ts[j]))
    &&& out[b1] matches SelectionEdit::Deselect(v) && v@ == ts
    &&& forall|j: int| 0 <= j < rm.len() ==> (#[trigger] out[b1 + 1 + j] matches SelectionEdit::Delete(e) && removes(e, rm[j]))
    &&& out[b2] == SelectionEdit::ClearFloat(FloatLayer::Fg)
    &&& out[b2 + 1] == SelectionEdit::ClearFloat(FloatLayer::Bg)
    &&& out[b2 + 2] == SelectionEdit::ClearFloat(FloatLayer::Obj)
    &&& forall|j: int| 0 <= j < tr.len() ==> (#[trigger] out[b3 + j] matches SelectionEdit::Delete(e) && leaves_nodes(room, sel, e, tr[j]))
    &&& out[out.len() - 1] == SelectionEdit::ClearSelection
}

fn push_room_edits(out: &mut Vec<SelectionEdit>, rs: Vec<RoomAction>)
    ensures
        final(out)@.len() == old(out)@.len() + rs@.len(),
        forall|j: int| 0 <= j < old(out)@.len() ==> #[trigger] final(out)@[j] == old(out)@[j],
        forall|j: int| 0 <= j < rs@.len() ==> (#[trigger] final(out)@[old(out)@.len() + j] matches SelectionEdit::Room(a) && a == rs@[j]),
{
    let ghost o0 = out@;
    let ghost rs0 = rs@;
    let mut rest = rs;
    let n = rest.len();
    let mut k: usize = 0;
    while rest.len() > 0
        invariant
            n == rs0.len(),
            k + rest@.len() == n,
            rest@ == rs0.subrange(k as int, n as int),
            out@.len() == o0.len() + k,
            forall|j: int| 0 <= j < o0.len() ==> #[trigger] out@[j] == o0[j],
            forall|j: int| 0 <= j < k ==> (#[trigger] out@[o0.len() + j] matches SelectionEdit::Room(a) && a == rs0[j]),
        decreases rest@.len(),
    {
        let a = rest.remove(0);
        assert(a == rs0[k as int]);
        out.push(SelectionEdit::Room(a));
        proof {
            assert(rest@ =~= rs0.subrange(k + 1, n as int));
        }
        k = k + 1;
    }
}

fn push_delete_edits(out: &mut Vec<SelectionEdit>, es: &mut Vec<DeleteEdit>, count: usize)
    requires
        count <= old(es)@.len(),
    ensures
        final(out)@.len() == old(out)@.len() + count,
        forall|j: int| 0 <= j < old(out)@.len() ==> #[trigger] final(out)@[j] == old(out)@[j],
        forall|j: int| 0 <= j < count ==> (#[trigger] final(out)@[old(out)@.len() + j] matches SelectionEdit::Delete(e)
            && e == old(es)@[j]),
        final(es)@ == old(es)@.subrange(count as int, old(es)@.len() as int),
{
    let ghost o0 = out@;
    let ghost es0 = es@;
    let mut k: usize = 0;
    while k < count
        invariant
            count <= es0.len(),
            k <= count,
            es@ == es0.subrange(k as int, es0.len() as int),
            out@.len() == o0.len() + k,
            forall|j: int| 0 <= j < o0.len() ==> #[trigger] out@[j] == o0[j],
            forall|j: int| 0 <= j < k ==> (#[trigger] out@[o0.len() + j] matches SelectionEdit::Delete(e) && e == es0[j]),
        decreases count - k,
    {
        let e = es.remove(0);
        assert(e == es0[k as int]);
        out.push(SelectionEdit::Delete(e));
        proof {
            assert(es@ =~= es0.subrange(k + 1, es0.len() as int));
        }
        k = k + 1;
    }
}

/// Deletes the selection: its tiles are emptied (and lifted off, then
/// dropped), its entities, triggers and decals removed, the nodes selected
/// without their entity trimmed, and the selection emptied.
pub fn delete_all(room: &Room, sel: &Vec<AppSelection>) -> (out: Vec<SelectionEdit>)
    requires
        tiles_fit(*room, sel@),
    ensures
        deletes_selection(*room, sel@, out@),
{
    let (_floats, resets, lifted) = float_tiles(room, sel);
    let ghost rs0 = resets@;
    let mut out: Vec<SelectionEdit> = Vec::new();
    let ghost o0 = out@;
    push_room_edits(&mut out, resets);
    let ghost o1 = out@;
    out.push(SelectionEdit::Deselect(lifted));
    let n_rm = count_removals(sel);
    let mut edits = delete_edits(room, sel);
    let ghost ed0 = edits@;
    let ghost o2 = out@;
    push_delete_edits(&mut out, &mut edits, n_rm);
    let ghost o3 = out@;
    let ghost ed1 = edits@;
    out.push(SelectionEdit::ClearFloat(FloatLayer::Fg));
    out.push(SelectionEdit::ClearFloat(FloatLayer::Bg));
    out.push(SelectionEdit::ClearFloat(FloatLayer::Obj));
    let ghost o4 = out@;
    let rest = edits.len();
    push_delete_edits(&mut out, &mut edits, rest);
    let ghost o5 = out@;
    out.push(SelectionEdit::ClearSelection);
    proof {
        let ts = tile_sels(sel@, sel@.len());
        let rm = removals(sel@, sel@.len());
        let tr = trimmed_owners(*room, sel@, node_owners(sel@, sel@.len()));
        let b1 = ts.len() as int;
        assert forall|j: int| 0 <= j < b1 implies (#[trigger] out@[j] matches SelectionEdit::Room(a) && clears(a, ts[j])) by {
            assert(out@[j] == o5[j] && o5[j] == o4[j] && o4[j] == o3[j] && o3[j] == o2[j] && o2[j] == o1[j]);
            assert(o1[o0.len() + j] matches SelectionEdit::Room(a) && a == rs0[j]);
        }
        assert forall|j: int| 0 <= j < rm.len() implies (#[trigger] out@[b1 + 1 + j] matches SelectionEdit::Delete(e) && removes(e, rm[j])) by {
            assert(out@[b1 + 1 + j] == o5[b1 + 1 + j] && o5[b1 + 1 + j] == o4[b1 + 1 + j] && o4[b1 + 1 + j] == o3[b1 + 1 + j]);
        }
        assert forall|j: int| 0 <= j < tr.len() implies (#[trigger] out@[b1 + 1 + rm.len() + 3 + j] matches SelectionEdit::Delete(e)
            && leaves_nodes(*room, sel@, e, tr[j])) by {
            assert(out@[b1 + 1 + rm.len() + 3 + j] == o5[b1 + 1 + rm.len() + 3 + j]);
            assert(o5[o4.len() + j] matches SelectionEdit::Delete(e) && e == ed1[j]);
            assert(ed1[j] == ed0[rm.len() + j]);
            assert(leaves_nodes(*room, sel@, ed0[rm.len() + j], tr[j]));
        }
        assert(out@[b1] == o2[b1]);
        assert(out@[b1 + 1 + rm.len()] == o4[b1 + 1 + rm.len()]);
        assert(out@[b1 + 2 + rm.len()] == o4[b1 + 2 + rm.len()]);
        assert(out@[b1 + 3 + rm.len()] == o4[b1 + 3 + rm.len()]);
    }
    out
}

} // verus!
