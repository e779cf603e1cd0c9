//! Undoable edits of one room: moving it, patching its tiles, and adding,
//! changing and removing its entities, triggers and decals. Each edit,
//! applied, gives back the edit that undoes it.
use vstd::prelude::*;
use crate::binel::BinElAttr;
use crate::tile_grid::{TileGrid, cell, resized_cell};
use crate::tiles::{apply_tiles, applied, positions_fit, law_apply_tiles_undo, swaps, target_index};
use crate::units::{MapRectStrict, TilePoint, TileSize};
use crate::uuid::IdCounter;

verus! {

/// An entity or trigger placed in a room.
#[derive(Clone, Debug, PartialEq)]
pub struct MapEntity {
    pub id: i32,
    pub name: String,
    pub x: i32,
    pub y: i32,
    pub width: u32,
    pub height: u32,
    pub nodes: Vec<(i32, i32)>,
    pub attributes: Vec<(String, BinElAttr)>,
}

/// A decal placed in a room; its scales are held by their IEEE 754 bits.
#[derive(Clone, Debug, PartialEq)]
pub struct MapDecal {
    pub id: u32,
    pub x: i32,
    pub y: i32,
    pub scale_x: u32,
    pub scale_y: u32,
    pub texture: String,
}

/// What the edits of a room touch: its bounds, its three tile layers, its
/// entities and triggers, and its foreground and background decals.
#[derive(Debug)]
pub struct Room {
    pub bounds: MapRectStrict,
    pub solids: TileGrid<char>,
    pub bg: TileGrid<char>,
    pub object_tiles: TileGrid<i32>,
    pub entities: Vec<MapEntity>,
    pub triggers: Vec<MapEntity>,
    pub fg_decals: Vec<MapDecal>,
    pub bg_decals: Vec<MapDecal>,
}

/// An edit of a room.
#[derive(Debug)]
pub enum RoomAction {
    MoveRoom { bounds: MapRectStrict },
    TileUpdate { fg: bool, offset: TilePoint, data: TileGrid<char> },
    ObjectTileUpdate { offset: TilePoint, data: TileGrid<i32> },
    EntityAdd { entity: MapEntity, trigger: bool, genid: bool },
    EntityUpdate { entity: MapEntity, trigger: bool },
    EntityRemove { id: i32, trigger: bool },
    /// Puts an entity back at a position of its list, under its own id.
    EntityRestore { entity: MapEntity, trigger: bool, index: usize },
    DecalAdd { fg: bool, decal: MapDecal, genid: bool },
    DecalUpdate { fg: bool, decal: MapDecal },
    DecalRemove { fg: bool, id: u32 },
    /// Puts a decal back at a position of its list, under its own id.
    DecalRestore { fg: bool, decal: MapDecal, index: usize },
}

/// Whether two grids hold the same tiles in the same shape.
pub open spec fn grid_same<T>(a: TileGrid<T>, b: TileGrid<T>) -> bool {
    a.tiles@ == b.tiles@ && a.stride == b.stride
}

/// Whether a tile patch was applied, swapping the tiles of `data0` into
/// `target0`, giving the swapped-out tiles `data1` and the patched `target1`.
pub open spec fn patched<T>(offset: TilePoint, data0: TileGrid<T>, target0: TileGrid<T>, ignore: T,
    data1: TileGrid<T>, target1: TileGrid<T>) -> bool {
    exists|dirty: bool| #[trigger] applied(offset, data0, target0, ignore, data1, target1, dirty)
}

/// The foreground (or background) tiles of a room.
pub open spec fn tile_layer(r: Room, fg: bool) -> TileGrid<char> {
    if fg { r.solids } else { r.bg }
}

/// The entities (or, with `trigger`, the triggers) of a room.
pub open spec fn ents(r: Room, trigger: bool) -> Seq<MapEntity> {
    if trigger { r.triggers@ } else { r.entities@ }
}

/// The foreground (or background) decals of a room.
pub open spec fn decals(r: Room, fg: bool) -> Seq<MapDecal> {
    if fg { r.fg_decals@ } else { r.bg_decals@ }
}

/// Whether `b` is `a` with the entity list chosen by `trigger` made `s`.
pub open spec fn with_ents(a: Room, b: Room, trigger: bool, s: Seq<MapEntity>) -> bool {
    &&& b.bounds == a.bounds
    &&& grid_same(b.solids, a.solids) && grid_same(b.bg, a.bg) && grid_same(b.object_tiles, a.object_tiles)
    &&& ents(b, trigger) == s && ents(b, !trigger) == ents(a, !trigger)
    &&& b.fg_decals@ == a.fg_decals@ && b.bg_decals@ == a.bg_decals@
}

/// Whether `b` is `a` with the decal list chosen by `fg` made `s`.
pub open spec fn with_decals(a: Room, b: Room, fg: bool, s: Seq<MapDecal>) -> bool {
    &&& b.bounds == a.bounds
    &&& grid_same(b.solids, a.solids) && grid_same(b.bg, a.bg) && grid_same(b.object_tiles, a.object_tiles)
    &&& b.entities@ == a.entities@ && b.triggers@ == a.triggers@
    &&& decals(b, fg) == s && decals(b, !fg) == decals(a, !fg)
}

/// Whether two rooms hold the same.
pub open spec fn room_same(a: Room, b: Room) -> bool {
    with_ents(a, b, false, a.entities@)
}

/// The index of the first entity with id `id` at or after `k`, if any.
pub open spec fn entity_from(s: Seq<MapEntity>, id: i32, k: int) -> Option<int>
    decreases s.len() - k,
{
    if k < 0 || k >= s.len() { None } else if s[k].id == id { Some(k) } else { entity_from(s, id, k + 1) }
}

/// The index of the first entity with id `id`, if any.
pub open spec fn first_entity(s: Seq<MapEntity>, id: i32) -> Option<int> {
    entity_from(s, id, 0)
}

/// The index of the first decal with id `id` at or after `k`, if any.
pub open spec fn decal_from(s: Seq<MapDecal>, id: u32, k: int) -> Option<int>
    decreases s.len() - k,
{
    if k < 0 || k >= s.len() { None } else if s[k].id == id { Some(k) } else { decal_from(s, id, k + 1) }
}

/// The index of the first decal with id `id`, if any.
pub open spec fn first_decal(s: Seq<MapDecal>, id: u32) -> Option<int> {
    decal_from(s, id, 0)
}

/// The size in tiles of bounds in pixels.
pub open spec fn tile_size(b: MapRectStrict) -> (int, int) {
    (b.size.width as int / 8, b.size.height as int / 8)
}

/// Whether `g` is `g0` resized to `w` by `h` tiles, the new tiles `fill`.
pub open spec fn resized_to<T>(g0: TileGrid<T>, g: TileGrid<T>, w: int, h: int, fill: T) -> bool {
    &&& g.stride == w
    &&& g.tiles@.len() == w * h
    &&& forall|x: int, y: int| 0 <= x < w && 0 <= y < h ==> #[trigger] cell(g.tiles@, w, x, y)
        == resized_cell(g0.tiles@, g0.stride as int, g0.tiles@.len() as int / (g0.stride as int), fill, x, y)
}

/// Whether an edit can be applied without a computation leaving its type:
/// a move to a new size has a non-negative size and grids with a positive
/// width; a tile patch keeps its positions in 32 bits.
pub open spec fn action_fits(room: Room, a: RoomAction) -> bool {
    match a {
        RoomAction::MoveRoom { bounds } => bounds.size != room.bounds.size ==> {
            &&& bounds.size.width >= 0 && bounds.size.height >= 0
            &&& room.solids.stride > 0 && room.bg.stride > 0 && room.object_tiles.stride > 0
            &&& (bounds.size.width as int / 8) * (bounds.size.height as int / 8) <= usize::MAX
        },
        RoomAction::TileUpdate { fg, offset, data } => positions_fit(offset, data, if fg { room.solids } else { room.bg }),
        RoomAction::ObjectTileUpdate { offset, data } => positions_fit(offset, data, room.object_tiles),
        _ => true,
    }
}

/// What applying `a` to `old` does, giving `new` and `r`; `fresh_entity` is
/// the id a generated entity gets, `next_decal` the id a generated decal
/// gets.
pub open spec fn room_applied(r0: Room, a: RoomAction, fresh_entity: i32, next_decal: u32, r1: Room,
    r: Result<RoomAction, String>) -> bool {
    match a {
        RoomAction::MoveRoom { bounds } => {
            &&& r1.bounds == bounds
            &&& r1.entities@ == r0.entities@ && r1.triggers@ == r0.triggers@
            &&& r1.fg_decals@ == r0.fg_decals@ && r1.bg_decals@ == r0.bg_decals@
            &&& if bounds.size != r0.bounds.size {
                let (w, h) = tile_size(bounds);
                &&& resized_to(r0.solids, r1.solids, w, h, '0')
                &&& resized_to(r0.bg, r1.bg, w, h, '0')
                &&& resized_to(r0.object_tiles, r1.object_tiles, w, h, -1i32)
            } else {
                grid_same(r1.solids, r0.solids) && grid_same(r1.bg, r0.bg) && grid_same(r1.object_tiles, r0.object_tiles)
            }
            &&& r matches Ok(RoomAction::MoveRoom { bounds: b }) && b == r0.bounds
        },
        RoomAction::TileUpdate { fg, offset, data } => {
            &&& r1.bounds == r0.bounds && grid_same(r1.object_tiles, r0.object_tiles)
            &&& r1.entities@ == r0.entities@ && r1.triggers@ == r0.triggers@
            &&& r1.fg_decals@ == r0.fg_decals@ && r1.bg_decals@ == r0.bg_decals@
            &&& grid_same(if fg { r1.bg } else { r1.solids }, if fg { r0.bg } else { r0.solids })
            &&& r matches Ok(RoomAction::TileUpdate { fg: f2, offset: o2, data: d2 }) && f2 == fg && o2 == offset
                && patched(offset, data, tile_layer(r0, fg), '\0', d2, tile_layer(r1, fg))
        },
        RoomAction::ObjectTileUpdate { offset, data } => {
            &&& r1.bounds == r0.bounds && grid_same(r1.solids, r0.solids) && grid_same(r1.bg, r0.bg)
            &&& r1.entities@ == r0.entities@ && r1.triggers@ == r0.triggers@
            &&& r1.fg_decals@ == r0.fg_decals@ && r1.bg_decals@ == r0.bg_decals@
            &&& r matches Ok(RoomAction::ObjectTileUpdate { offset: o2, data: d2 }) && o2 == offset
                && patched(offset, data, r0.object_tiles, -2i32, d2, r1.object_tiles)
        },
        RoomAction::EntityAdd { entity, trigger, genid } => {
            let s = ents(r0, trigger);
            if genid {
                &&& with_ents(r0, r1, trigger, s.push(MapEntity { id: fresh_entity, ..entity }))
                &&& r == Ok::<RoomAction, String>(RoomAction::EntityRemove { id: fresh_entity, trigger })
            } else if first_entity(s, entity.id) is Some {
                &&& room_same(r0, r1)
                &&& r matches Err(e) && e@ == "Entity/trigger already exists"@
            } else {
                &&& with_ents(r0, r1, trigger, s.push(entity))
                &&& r == Ok::<RoomAction, String>(RoomAction::EntityRemove { id: entity.id, trigger })
            }
        },
        RoomAction::EntityUpdate { entity, trigger } => {
            let s = ents(r0, trigger);
            match first_entity(s, entity.id) {
                Some(i) => {
                    &&& with_ents(r0, r1, trigger, s.update(i, entity))
                    &&& r == Ok::<RoomAction, String>(RoomAction::EntityUpdate { entity: s[i], trigger })
                },
                None => room_same(r0, r1) && (r matches Err(e) && e@ == "No such entity"@),
            }
        },
        RoomAction::EntityRemove { id, trigger } => {
            let s = ents(r0, trigger);
            match first_entity(s, id) {
                Some(i) => {
                    &&& with_ents(r0, r1, trigger, s.remove(i))
                    &&& r == Ok::<RoomAction, String>(RoomAction::EntityRestore { entity: s[i], trigger, index: i as usize })
                },
                None => room_same(r0, r1) && (r matches Err(e) && e@ == "No such entity"@),
            }
        },
        RoomAction::EntityRestore { entity, trigger, index } => {
            let s = ents(r0, trigger);
            if index <= s.len() {
                &&& with_ents(r0, r1, trigger, s.insert(index as int, entity))
                &&& r == Ok::<RoomAction, String>(RoomAction::EntityRemove { id: entity.id, trigger })
            } else {
                &&& room_same(r0, r1)
                &&& r matches Err(e) && e@ == "Out of range"@
            }
        },
        RoomAction::DecalAdd { fg, decal, genid } => {
            let s = decals(r0, fg);
            if genid {
                &&& with_decals(r0, r1, fg, s.push(MapDecal { id: next_decal, ..decal }))
                &&& r == Ok::<RoomAction, String>(RoomAction::DecalRemove { fg, id: next_decal })
            } else if first_decal(s, decal.id) is Some {
                &&& room_same(r0, r1)
                &&& r matches Err(e) && e@ == "Decal already exists"@
            } else {
                &&& with_decals(r0, r1, fg, s.push(decal))
                &&& r == Ok::<RoomAction, String>(RoomAction::DecalRemove { fg, id: decal.id })
            }
        },
        RoomAction::DecalUpdate { fg, decal } => {
            let s = decals(r0, fg);
            match first_decal(s, decal.id) {
                Some(i) => {
                    &&& with_decals(r0, r1, fg, s.update(i, decal))
                    &&& r == Ok::<RoomAction, String>(RoomAction::DecalUpdate { fg, decal: s[i] })
                },
                None => room_same(r0, r1) && (r matches Err(e) && e@ == "No such decal"@),
            }
        },
        RoomAction::DecalRemove { fg, id } => {
            let s = decals(r0, fg);
            match first_decal(s, id) {
                Some(i) => {
                    &&& with_decals(r0, r1, fg, s.remove(i))
                    &&& r == Ok::<RoomAction, String>(RoomAction::DecalRestore { fg, decal: s[i], index: i as usize })
                },
                None => room_same(r0, r1) && (r matches Err(e) && e@ == "No such decal"@),
            }
        },
        RoomAction::DecalRestore { fg, decal, index } => {
            let s = decals(r0, fg);
            if index <= s.len() {
                &&& with_decals(r0, r1, fg, s.insert(index as int, decal))
                &&& r == Ok::<RoomAction, String>(RoomAction::DecalRemove { fg, id: decal.id })
            } else {
                &&& room_same(r0, r1)
                &&& r matches Err(e) && e@ == "Out of range"@
            }
        },
    }
}

fn find_entity(v: &Vec<MapEntity>, id: i32) -> (r: Option<usize>)
    ensures
        r matches Some(i) ==> i < v@.len() && v@[i as int].id == id,
        r matches Some(i) ==> first_entity(v@, id) == Some(i as int),
        r is None ==> first_entity(v@, id) is None,
{
    let mut i: usize = 0;
    while i < v.len()
        invariant
            i <= v@.len(),
            entity_from(v@, id, 0) == entity_from(v@, id, i as int),
        decreases v@.len() - i,
    {
        if v[i].id == id {
            return Some(i);
        }
        i = i + 1;
    }
    None
}

fn find_decal(v: &Vec<MapDecal>, id: u32) -> (r: Option<usize>)
    ensures
        r matches Some(i) ==> i < v@.len() && v@[i as int].id == id,
        r matches Some(i) ==> first_decal(v@, id) == Some(i as int),
        r is None ==> first_decal(v@, id) is None,
{
    let mut i: usize = 0;
    while i < v.len()
        invariant
            i <= v@.len(),
            decal_from(v@, id, 0) == decal_from(v@, id, i as int),
        decreases v@.len() - i,
    {
        if v[i].id == id {
            return Some(i);
        }
        i = i + 1;
    }
    None
}

pub(crate) fn find_in_room(room: &Room, trigger: bool, id: i32) -> (r: Option<usize>)
    ensures
        r matches Some(i) ==> i < ents(*room, trigger).len() && ents(*room, trigger)[i as int].id == id,
        r matches Some(i) ==> first_entity(ents(*room, trigger), id) == Some(i as int),
        r is None ==> first_entity(ents(*room, trigger), id) is None,
{
    if trigger { find_entity(&room.triggers, id) } else { find_entity(&room.entities, id) }
}

pub(crate) fn find_decal_in_room(room: &Room, fg: bool, id: u32) -> (r: Option<usize>)
    ensures
        r matches Some(i) ==> i < decals(*room, fg).len() && decals(*room, fg)[i as int].id == id,
        r matches Some(i) ==> first_decal(decals(*room, fg), id) == Some(i as int),
        r is None ==> first_decal(decals(*room, fg), id) is None,
{
    if fg { find_decal(&room.fg_decals, id) } else { find_decal(&room.bg_decals, id) }
}

fn no_such(msg_entity: bool) -> (r: String)
    ensures
        r@ == (if msg_entity { "No such entity"@ } else { "No such decal"@ }),
{
    if msg_entity { String::from_str("No such entity") } else { String::from_str("No such decal") }
}

fn swap_entity(v: &mut Vec<MapEntity>, i: usize, e: MapEntity) -> (r: MapEntity)
    requires
        i < old(v)@.len(),
    ensures
        r == old(v)@[i as int],
        final(v)@ == old(v)@.update(i as int, e),
{
    let r = v.remove(i);
    v.insert(i, e);
    proof {
        assert(v@ =~= old(v)@.update(i as int, e));
    }
    r
}

fn swap_decal(v: &mut Vec<MapDecal>, i: usize, d: MapDecal) -> (r: MapDecal)
    requires
        i < old(v)@.len(),
    ensures
        r == old(v)@[i as int],
        final(v)@ == old(v)@.update(i as int, d),
{
    let r = v.remove(i);
    v.insert(i, d);
    proof {
        assert(v@ =~= old(v)@.update(i as int, d));
    }
    r
}

fn move_room(room: &mut Room, bounds: MapRectStrict) -> (old_bounds: MapRectStrict)
    requires
        action_fits(*old(room), RoomAction::MoveRoom { bounds }),
    ensures
        old_bounds == old(room).bounds,
        final(room).bounds == bounds,
        final(room).entities@ == old(room).entities@ && final(room).triggers@ == old(room).triggers@,
        final(room).fg_decals@ == old(room).fg_decals@ && final(room).bg_decals@ == old(room).bg_decals@,
        bounds.size != old(room).bounds.size ==> {
            let (w, h) = tile_size(bounds);
            &&& resized_to(old(room).solids, final(room).solids, w, h, '0')
            &&& resized_to(old(room).bg, final(room).bg, w, h, '0')
            &&& resized_to(old(room).object_tiles, final(room).object_tiles, w, h, -1i32)
        },
        bounds.size == old(room).bounds.size ==> grid_same(final(room).solids, old(room).solids)
            && grid_same(final(room).bg, old(room).bg) && grid_same(final(room).object_tiles, old(room).object_tiles),
{
            if bounds.size.width != room.bounds.size.width || bounds.size.height != room.bounds.size.height {
        let w = bounds.size.width / 8;
        let h = bounds.size.height / 8;
        proof {
            assert((w as usize) * (h as usize) <= 0x1000_0000u64 * 0x1000_0000u64) by (nonlinear_arith)
                requires 0 <= w <= 0x1000_0000, 0 <= h <= 0x1000_0000;
        }
        let ts = TileSize::new(w, h);
        room.solids.resize(ts, '0');
        room.bg.resize(ts, '0');
        room.object_tiles.resize(ts, -1);
        proof {
            assert(w as int == bounds.size.width as int / 8);
            assert(h as int == bounds.size.height as int / 8);
            assert(bounds.size != old(room).bounds.size);
            let (tw, th) = tile_size(bounds);
            assert(ts.width == w && ts.height == h);
            assert(room.solids.stride == tw && room.solids.tiles@.len() == tw * th);
            assert forall|x: int, y: int| 0 <= x < tw && 0 <= y < th implies #[trigger] cell(room.solids.tiles@, tw, x, y)
                == resized_cell(old(room).solids.tiles@, old(room).solids.stride as int,
                    old(room).solids.tiles@.len() as int / (old(room).solids.stride as int), '0', x, y) by {
                assert(cell(room.solids.tiles@, ts.width as usize as int, x, y) == cell(room.solids.tiles@, tw, x, y));
            }
            assert(resized_to(old(room).solids, room.solids, tw, th, '0'));
            assert(resized_to(old(room).bg, room.bg, tw, th, '0'));
            assert(resized_to(old(room).object_tiles, room.object_tiles, tw, th, -1i32));
        }
    } else {
        proof {
            assert(bounds.size.unit == old(room).bounds.size.unit);
            assert(bounds.size == old(room).bounds.size);
        }
    }
    let old_bounds = room.bounds;
    room.bounds = bounds;
    proof {
        assert(room.bounds == bounds);
        assert(room.entities@ == old(room).entities@ && room.triggers@ == old(room).triggers@);
        assert(room.fg_decals@ == old(room).fg_decals@ && room.bg_decals@ == old(room).bg_decals@);
        assert(old_bounds == old(room).bounds);
        if bounds.size != old(room).bounds.size {
            let (tw, th) = tile_size(bounds);
            assert(resized_to(old(room).solids, room.solids, tw, th, '0'));
        } else {
            assert(grid_same(room.solids, old(room).solids));
        }
    }
    old_bounds
}

fn move_room_action(room: &mut Room, bounds: MapRectStrict, fresh_entity: i32, Ghost(next_decal): Ghost<u32>)
    -> (r: Result<RoomAction, String>)
    requires
        action_fits(*old(room), RoomAction::MoveRoom { bounds }),
    ensures
        room_applied(*old(room), RoomAction::MoveRoom { bounds }, fresh_entity, next_decal, *final(room), r),
{
    let old_bounds = move_room(room, bounds);
    Ok(RoomAction::MoveRoom { bounds: old_bounds })
}

fn tile_action(room: &mut Room, fg: bool, offset: TilePoint, data: TileGrid<char>, fresh_entity: i32, Ghost(next_decal): Ghost<u32>)
    -> (r: Result<RoomAction, String>)
    requires
        action_fits(*old(room), RoomAction::TileUpdate { fg, offset, data }),
    ensures
        room_applied(*old(room), RoomAction::TileUpdate { fg, offset, data }, fresh_entity, next_decal, *final(room), r),
{
    let mut data = data;
    let ghost data0 = data;
    let dirty = if fg {
        apply_tiles(&offset, &mut data, &mut room.solids, '\0')
    } else {
        apply_tiles(&offset, &mut data, &mut room.bg, '\0')
    };
    proof {
        assert(applied(offset, data0, tile_layer(*old(room), fg), '\0', data, tile_layer(*room, fg), dirty));
        assert(patched(offset, data0, tile_layer(*old(room), fg), '\0', data, tile_layer(*room, fg)));
    }
    Ok(RoomAction::TileUpdate { fg, offset, data })
}

fn object_tile_action(room: &mut Room, offset: TilePoint, data: TileGrid<i32>, fresh_entity: i32, Ghost(next_decal): Ghost<u32>)
    -> (r: Result<RoomAction, String>)
    requires
        action_fits(*old(room), RoomAction::ObjectTileUpdate { offset, data }),
    ensures
        room_applied(*old(room), RoomAction::ObjectTileUpdate { offset, data }, fresh_entity, next_decal, *final(room), r),
{
    let mut data = data;
    let ghost data0 = data;
    let dirty = apply_tiles(&offset, &mut data, &mut room.object_tiles, -2);
    proof {
        assert(patched(offset, data0, old(room).object_tiles, -2i32, data, room.object_tiles)) by {
            assert(applied(offset, data0, old(room).object_tiles, -2i32, data, room.object_tiles, dirty));
        }
    }
    Ok(RoomAction::ObjectTileUpdate { offset, data })
}

fn entity_add_action(room: &mut Room, entity: MapEntity, trigger: bool, genid: bool, fresh_entity: i32, Ghost(next_decal): Ghost<u32>)
    -> (r: Result<RoomAction, String>)
    ensures
        room_applied(*old(room), RoomAction::EntityAdd { entity, trigger, genid }, fresh_entity, next_decal, *final(room), r),
{
    let mut entity = entity;
    let id = if genid {
        entity.id = fresh_entity;
        fresh_entity
    } else {
        let found = find_in_room(room, trigger, entity.id);
        if found.is_some() {
            return Err(String::from_str("Entity/trigger already exists"));
        }
        entity.id
    };
    if trigger {
        room.triggers.push(entity);
    } else {
        room.entities.push(entity);
    }
    Ok(RoomAction::EntityRemove { id, trigger })
}

fn entity_update_action(room: &mut Room, entity: MapEntity, trigger: bool, fresh_entity: i32, Ghost(next_decal): Ghost<u32>)
    -> (r: Result<RoomAction, String>)
    ensures
        room_applied(*old(room), RoomAction::EntityUpdate { entity, trigger }, fresh_entity, next_decal, *final(room), r),
{
    let found = find_in_room(room, trigger, entity.id);
    match found {
        Some(i) => {
            let old_entity = if trigger {
                swap_entity(&mut room.triggers, i, entity)
            } else {
                swap_entity(&mut room.entities, i, entity)
            };
            Ok(RoomAction::EntityUpdate { entity: old_entity, trigger })
        },
        None => Err(no_such(true)),
    }
}

fn entity_remove_action(room: &mut Room, id: i32, trigger: bool, fresh_entity: i32, Ghost(next_decal): Ghost<u32>)
    -> (r: Result<RoomAction, String>)
    ensures
        room_applied(*old(room), RoomAction::EntityRemove { id, trigger }, fresh_entity, next_decal, *final(room), r),
{
    let found = find_in_room(room, trigger, id);
    match found {
        Some(i) => {
            let entity = if trigger { room.triggers.remove(i) } else { room.entities.remove(i) };
            Ok(RoomAction::EntityRestore { entity, trigger, index: i })
        },
        None => Err(no_such(true)),
    }
}

fn decal_add_action(room: &mut Room, fg: bool, decal: MapDecal, genid: bool, fresh_entity: i32, decal_ids: &mut IdCounter)
    -> (r: Result<RoomAction, String>)
    ensures
        room_applied(*old(room), RoomAction::DecalAdd { fg, decal, genid }, fresh_entity, old(decal_ids)@, *final(room), r),
        final(decal_ids)@ == (if genid {
            if old(decal_ids)@ == u32::MAX { 0 } else { (old(decal_ids)@ + 1) as u32 }
        } else {
            old(decal_ids)@
        }),
{
    let mut decal = decal;
    let id = if genid {
        let id = decal_ids.next_uuid();
        decal.id = id;
        id
    } else {
        let found = find_decal_in_room(room, fg, decal.id);
        if found.is_some() {
            return Err(String::from_str("Decal already exists"));
        }
        decal.id
    };
    if fg {
        room.fg_decals.push(decal);
    } else {
        room.bg_decals.push(decal);
    }
    Ok(RoomAction::DecalRemove { fg, id })
}

fn decal_update_action(room: &mut Room, fg: bool, decal: MapDecal, fresh_entity: i32, Ghost(next_decal): Ghost<u32>)
    -> (r: Result<RoomAction, String>)
    ensures
        room_applied(*old(room), RoomAction::DecalUpdate { fg, decal }, fresh_entity, next_decal, *final(room), r),
{
    let found = find_decal_in_room(room, fg, decal.id);
    match found {
        Some(i) => {
            let old_decal = if fg {
                swap_decal(&mut room.fg_decals, i, decal)
            } else {
                swap_decal(&mut room.bg_decals, i, decal)
            };
            Ok(RoomAction::DecalUpdate { fg, decal: old_decal })
        },
        None => Err(no_such(false)),
    }
}

fn decal_remove_action(room: &mut Room, fg: bool, id: u32, fresh_entity: i32, Ghost(next_decal): Ghost<u32>)
    -> (r: Result<RoomAction, String>)
    ensures
        room_applied(*old(room), RoomAction::DecalRemove { fg, id }, fresh_entity, next_decal, *final(room), r),
{
    let found = find_decal_in_room(room, fg, id);
    match found {
        Some(i) => {
            let decal = if fg { room.fg_decals.remove(i) } else { room.bg_decals.remove(i) };
            Ok(RoomAction::DecalRestore { fg, decal, index: i })
        },
        None => Err(no_such(false)),
    }
}

fn entity_restore_action(room: &mut Room, entity: MapEntity, trigger: bool, index: usize, fresh_entity: i32, Ghost(next_decal): Ghost<u32>)
    -> (r: Result<RoomAction, String>)
    ensures
        room_applied(*old(room), RoomAction::EntityRestore { entity, trigger, index }, fresh_entity, next_decal, *final(room), r),
{
    let len = if trigger { room.triggers.len() } else { room.entities.len() };
    if index > len {
        return Err(String::from_str("Out of range"));
    }
    let id = entity.id;
    if trigger {
        room.triggers.insert(index, entity);
    } else {
        room.entities.insert(index, entity);
    }
    Ok(RoomAction::EntityRemove { id, trigger })
}

fn decal_restore_action(room: &mut Room, fg: bool, decal: MapDecal, index: usize, fresh_entity: i32, Ghost(next_decal): Ghost<u32>)
    -> (r: Result<RoomAction, String>)
    ensures
        room_applied(*old(room), RoomAction::DecalRestore { fg, decal, index }, fresh_entity, next_decal, *final(room), r),
{
    let len = if fg { room.fg_decals.len() } else { room.bg_decals.len() };
    if index > len {
        return Err(String::from_str("Out of range"));
    }
    let id = decal.id;
    if fg {
        room.fg_decals.insert(index, decal);
    } else {
        room.bg_decals.insert(index, decal);
    }
    Ok(RoomAction::DecalRemove { fg, id })
}

/// Applies an edit to a room and gives back the edit that undoes it:
/// a move gives back the old bounds (a new size resizes the tile layers,
/// new tiles empty); a tile patch swaps its tiles with the room's and
/// gives back the swapped-out tiles; adding an entity, trigger or decal
/// gives back its removal, removing gives back the removed one put back
/// where it stood, putting back gives back the removal, and changing gives
/// back the old one. `fresh_entity` is the id a generated entity
/// gets; a generated decal takes the next id of `decal_ids`. An entity or
/// decal that is not there, or one added with an id already used, is
/// refused with a message and changes nothing.
pub fn apply_room_action(room: &mut Room, a: RoomAction, fresh_entity: i32, decal_ids: &mut IdCounter)
    -> (r: Result<RoomAction, String>)
    requires
        action_fits(*old(room), a),
    ensures
        room_applied(*old(room), a, fresh_entity, old(decal_ids)@, *final(room), r),
        final(decal_ids)@ == (if a matches RoomAction::DecalAdd { genid: true, .. } {
            if old(decal_ids)@ == u32::MAX { 0 } else { (old(decal_ids)@ + 1) as u32 }
        } else {
            old(decal_ids)@
        }),
{
    let ghost next_decal = decal_ids@;
    match a {
        RoomAction::MoveRoom { bounds } => move_room_action(room, bounds, fresh_entity, Ghost(next_decal)),
        RoomAction::TileUpdate { fg, offset, data } => tile_action(room, fg, offset, data, fresh_entity, Ghost(next_decal)),
        RoomAction::ObjectTileUpdate { offset, data } => object_tile_action(room, offset, data, fresh_entity, Ghost(next_decal)),
        RoomAction::EntityAdd { entity, trigger, genid } => entity_add_action(room, entity, trigger, genid, fresh_entity, Ghost(next_decal)),
        RoomAction::EntityUpdate { entity, trigger } => entity_update_action(room, entity, trigger, fresh_entity, Ghost(next_decal)),
        RoomAction::EntityRemove { id, trigger } => entity_remove_action(room, id, trigger, fresh_entity, Ghost(next_decal)),
        RoomAction::DecalAdd { fg, decal, genid } => decal_add_action(room, fg, decal, genid, fresh_entity, decal_ids),
        RoomAction::DecalUpdate { fg, decal } => decal_update_action(room, fg, decal, fresh_entity, Ghost(next_decal)),
        RoomAction::DecalRemove { fg, id } => decal_remove_action(room, fg, id, fresh_entity, Ghost(next_decal)),
        RoomAction::EntityRestore { entity, trigger, index } => entity_restore_action(room, entity, trigger, index, fresh_entity, Ghost(next_decal)),
        RoomAction::DecalRestore { fg, decal, index } => decal_restore_action(room, fg, decal, index, fresh_entity, Ghost(next_decal)),
    }
}

proof fn lemma_entity_from(s: Seq<MapEntity>, id: i32, k: int)
    requires
        0 <= k,
    ensures
        match entity_from(s, id, k) {
            Some(j) => k <= j < s.len() && s[j].id == id && forall|t: int| k <= t < j ==> s[t].id != id,
            None => forall|t: int| k <= t < s.len() ==> s[t].id != id,
        },
    decreases s.len() - k,
{
    if k < s.len() && s[k].id != id {
        lemma_entity_from(s, id, k + 1);
    }
}

proof fn lemma_entity_first_is(s: Seq<MapEntity>, id: i32, j: int)
    requires
        0 <= j < s.len(),
        s[j].id == id,
        forall|t: int| 0 <= t < j ==> s[t].id != id,
    ensures
        first_entity(s, id) == Some(j),
{
    lemma_entity_from(s, id, 0);
    if let Some(k) = first_entity(s, id) {
        if k < j { assert(s[k].id != id); }
        if k > j { assert(s[j].id != id); }
    }
}

proof fn lemma_decal_from(s: Seq<MapDecal>, id: u32, k: int)
    requires
        0 <= k,
    ensures
        match decal_from(s, id, k) {
            Some(j) => k <= j < s.len() && s[j].id == id && forall|t: int| k <= t < j ==> s[t].id != id,
            None => forall|t: int| k <= t < s.len() ==> s[t].id != id,
        },
    decreases s.len() - k,
{
    if k < s.len() && s[k].id != id {
        lemma_decal_from(s, id, k + 1);
    }
}

proof fn lemma_decal_first_is(s: Seq<MapDecal>, id: u32, j: int)
    requires
        0 <= j < s.len(),
        s[j].id == id,
        forall|t: int| 0 <= t < j ==> s[t].id != id,
    ensures
        first_decal(s, id) == Some(j),
{
    lemma_decal_from(s, id, 0);
    if let Some(k) = first_decal(s, id) {
        if k < j { assert(s[k].id != id); }
        if k > j { assert(s[j].id != id); }
    }
}

/// Whether the lists of a room have lengths a `Vec` can have.
pub open spec fn lists_fit(r: Room) -> bool {
    &&& r.entities@.len() <= usize::MAX && r.triggers@.len() <= usize::MAX
    &&& r.fg_decals@.len() <= usize::MAX && r.bg_decals@.len() <= usize::MAX
}

/// Whether no tile that a patch swaps out of its target is the filler, so
/// that swapping back puts every tile back.
pub open spec fn swaps_back<T>(offset: TilePoint, data: TileGrid<T>, target: TileGrid<T>, ignore: T) -> bool {
    forall|idx: int| 0 <= idx < data.tiles@.len() && #[trigger] swaps(offset, data, target, ignore, idx)
        ==> target.tiles@[target_index(offset, data, target, idx)] != ignore
}

/// Whether the undo that applying `a` to `r0` gives back restores `r0`
/// exactly: a move that keeps the size, a tile patch that swaps out no
/// filler tile, a change or removal of an entity, trigger or decal, an
/// addition under an id of its own, or a putting back at a position that no
/// earlier item of the same id precedes.
pub open spec fn undo_exact(r0: Room, a: RoomAction) -> bool {
    match a {
        RoomAction::MoveRoom { bounds } => bounds.size == r0.bounds.size,
        RoomAction::TileUpdate { fg, offset, data } => swaps_back(offset, data, tile_layer(r0, fg), '\0'),
        RoomAction::ObjectTileUpdate { offset, data } => swaps_back(offset, data, r0.object_tiles, -2i32),
        RoomAction::EntityAdd { genid, .. } => !genid,
        RoomAction::EntityUpdate { .. } => true,
        RoomAction::DecalAdd { genid, .. } => !genid,
        RoomAction::DecalUpdate { .. } => true,
        RoomAction::EntityRemove { .. } => true,
        RoomAction::DecalRemove { .. } => true,
        RoomAction::EntityRestore { entity, trigger, index } =>
            forall|t: int| 0 <= t < index && t < ents(r0, trigger).len() ==> (#[trigger] ents(r0, trigger)[t]).id != entity.id,
        RoomAction::DecalRestore { fg, decal, index } =>
            forall|t: int| 0 <= t < index && t < decals(r0, fg).len() ==> (#[trigger] decals(r0, fg)[t]).id != decal.id,
    }
}

/// Undoing restores the room: where an edit that `undo_exact` admits
/// succeeds, the edit it gives back succeeds on the result and gives back
/// the room as it was.
pub proof fn law_room_action_undo(
    r0: Room, a: RoomAction, fresh0: i32, decal0: u32, r1: Room, inv: RoomAction,
    fresh1: i32, decal1: u32, r2: Room, res: Result<RoomAction, String>,
)
    requires
        lists_fit(r0),
        action_fits(r0, a),
        undo_exact(r0, a),
        room_applied(r0, a, fresh0, decal0, r1, Ok(inv)),
        room_applied(r1, inv, fresh1, decal1, r2, res),
    ensures
        res is Ok,
        room_same(r0, r2),
{
    match a {
        RoomAction::MoveRoom { bounds } => {},
        RoomAction::TileUpdate { fg, offset, data } => {
            let d1 = inv->TileUpdate_data;
            let dirty1 = choose|d: bool| #[trigger] applied(offset, data, tile_layer(r0, fg), '\0', d1, tile_layer(r1, fg), d);
            let d2 = res->Ok_0->TileUpdate_data;
            let dirty2 = choose|d: bool| #[trigger] applied(offset, d1, tile_layer(r1, fg), '\0', d2, tile_layer(r2, fg), d);
            law_apply_tiles_undo(offset, '\0', data, tile_layer(r0, fg), d1, tile_layer(r1, fg), dirty1,
                d2, tile_layer(r2, fg), dirty2);
        },
        RoomAction::ObjectTileUpdate { offset, data } => {
            let d1 = inv->ObjectTileUpdate_data;
            let dirty1 = choose|d: bool| #[trigger] applied(offset, data, r0.object_tiles, -2i32, d1, r1.object_tiles, d);
            let d2 = res->Ok_0->ObjectTileUpdate_data;
            let dirty2 = choose|d: bool| #[trigger] applied(offset, d1, r1.object_tiles, -2i32, d2, r2.object_tiles, d);
            law_apply_tiles_undo(offset, -2i32, data, r0.object_tiles, d1, r1.object_tiles, dirty1,
                d2, r2.object_tiles, dirty2);
        },
        RoomAction::EntityAdd { entity, trigger, genid } => {
            let s = ents(r0, trigger);
            lemma_entity_from(s, entity.id, 0);
            let t = s.push(entity);
            lemma_entity_first_is(t, entity.id, s.len() as int);
            assert(t.remove(s.len() as int) =~= s);
        },
        RoomAction::EntityUpdate { entity, trigger } => {
            let s = ents(r0, trigger);
            lemma_entity_from(s, entity.id, 0);
            let i = first_entity(s, entity.id)->0;
            let t = s.update(i, entity);
            lemma_entity_first_is(t, entity.id, i);
            assert(t.update(i, s[i]) =~= s);
        },
        RoomAction::DecalAdd { fg, decal, genid } => {
            let s = decals(r0, fg);
            lemma_decal_from(s, decal.id, 0);
            let t = s.push(decal);
            lemma_decal_first_is(t, decal.id, s.len() as int);
            assert(t.remove(s.len() as int) =~= s);
        },
        RoomAction::DecalUpdate { fg, decal } => {
            let s = decals(r0, fg);
            lemma_decal_from(s, decal.id, 0);
            let i = first_decal(s, decal.id)->0;
            let t = s.update(i, decal);
            lemma_decal_first_is(t, decal.id, i);
            assert(t.update(i, s[i]) =~= s);
        },
        RoomAction::EntityRemove { id, trigger } => {
            let s = ents(r0, trigger);
            lemma_entity_from(s, id, 0);
            let i = first_entity(s, id)->0;
            assert(s.remove(i).insert(i, s[i]) =~= s);
        },
        RoomAction::DecalRemove { fg, id } => {
            let s = decals(r0, fg);
            lemma_decal_from(s, id, 0);
            let i = first_decal(s, id)->0;
            assert(s.remove(i).insert(i, s[i]) =~= s);
        },
        RoomAction::EntityRestore { entity, trigger, index } => {
            let s = ents(r0, trigger);
            let t = s.insert(index as int, entity);
            assert forall|k: int| 0 <= k < index implies t[k].id != entity.id by {
                assert(t[k] == s[k]);
            }
            lemma_entity_first_is(t, entity.id, index as int);
            assert(t.remove(index as int) =~= s);
        },
        RoomAction::DecalRestore { fg, decal, index } => {
            let s = decals(r0, fg);
            let t = s.insert(index as int, decal);
            assert forall|k: int| 0 <= k < index implies t[k].id != decal.id by {
                assert(t[k] == s[k]);
            }
            lemma_decal_first_is(t, decal.id, index as int);
            assert(t.remove(index as int) =~= s);
        },
    }
}

} // verus!
