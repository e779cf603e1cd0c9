//! Undoable edits of a whole map: its stylegrounds, its list of rooms and
//! the edits of each room, one at a time or as a batch, and the map's edit
//! history with its dirty flag.
use vstd::prelude::*;
use crate::history::{MapHistory, UNDO_BUFFER_SIZE, trimmed};
use crate::room::{Room, RoomAction, action_fits, apply_room_action, room_applied, room_same, lists_fit, undo_exact, law_room_action_undo};
use crate::rooms::{pick_new_name, taken, letter_choice, lvl_name};
use crate::styles::{Stylegrounds, StylegroundAction, spec_apply, law_styleground_undo};
use crate::uuid::IdCounter;

verus! {

/// A map: its stylegrounds, and its rooms, each with its name.
#[derive(Debug)]
pub struct MapModel<S> {
    pub styles: Stylegrounds<S>,
    pub names: Vec<String>,
    pub rooms: Vec<Room>,
}

/// An edit of a map.
#[derive(Debug)]
pub enum MapAction<S> {
    Styleground(StylegroundAction<S>),
    /// Adds a room at a position of the list, or at its end.
    AddRoom { idx: Option<usize>, name: String, room: Room },
    DeleteRoom { idx: usize },
    RoomAction { idx: usize, event: RoomAction },
}

impl<S> MapModel<S> {
    /// Every room has its name.
    pub open spec fn wf(&self) -> bool {
        self.names@.len() == self.rooms@.len()
    }
}

/// Whether two maps hold the same.
pub open spec fn same_map<S>(a: MapModel<S>, b: MapModel<S>) -> bool {
    &&& a.styles.fg@ == b.styles.fg@ && a.styles.bg@ == b.styles.bg@
    &&& a.names@ == b.names@ && a.rooms@ == b.rooms@
}

/// Whether a name has to be replaced when a room is added: it is empty or
/// another room has it.
pub open spec fn needs_name(names: Seq<String>, n: Seq<char>) -> bool {
    n.len() == 0 || taken(names, n)
}

/// Whether `n` is a name `pick_new_name` can give for rooms named `names`.
pub open spec fn picked_name(names: Seq<String>, n: Seq<char>) -> bool {
    &&& !taken(names, n)
    &&& match letter_choice(names, 0) {
        Some(s) => n == s,
        None => exists|k: nat| n == lvl_name(k) && forall|j: nat| j < k ==> taken(names, #[trigger] lvl_name(j)),
    }
}

/// The id generated after `x`, wrapping around.
pub open spec fn next_entity_id(x: i32) -> i32 {
    if x == i32::MAX { i32::MIN } else { (x + 1) as i32 }
}

/// Whether an edit can be applied without the computation panicking: a
/// room edit fits the room, and a deletion is not one past the last room.
pub open spec fn map_action_fits<S>(m: MapModel<S>, a: MapAction<S>) -> bool {
    match a {
        MapAction::RoomAction { idx, event } => idx < m.rooms@.len() ==> action_fits(m.rooms@[idx as int], event),
        MapAction::DeleteRoom { idx } => idx != m.rooms@.len(),
        _ => true,
    }
}

/// What applying `a` to `m0` does, giving `m1` and `r`; `e0`/`e1` are the
/// id the next generated entity gets before and after, `d0`/`d1` the next
/// generated decal's.
pub open spec fn map_applied<S>(
    m0: MapModel<S>, a: MapAction<S>, e0: i32, d0: u32, m1: MapModel<S>, e1: i32, d1: u32,
    r: Result<MapAction<S>, String>,
) -> bool {
    match a {
        MapAction::Styleground(sa) => {
            &&& m1.names@ == m0.names@ && m1.rooms@ == m0.rooms@
            &&& e1 == e0 && d1 == d0
            &&& match spec_apply(m0.styles.fg@, m0.styles.bg@, sa) {
                Some((f, b, inv)) => m1.styles.fg@ == f && m1.styles.bg@ == b
                    && r == Ok::<MapAction<S>, String>(MapAction::Styleground(inv)),
                None => m1.styles.fg@ == m0.styles.fg@ && m1.styles.bg@ == m0.styles.bg@
                    && (r matches Err(e) && e@ == "Out of range"@),
            }
        },
        MapAction::AddRoom { idx, name, room } => {
            let i: int = match idx { Some(i) => i as int, None => m0.rooms@.len() as int };
            &&& m1.styles.fg@ == m0.styles.fg@ && m1.styles.bg@ == m0.styles.bg@
            &&& e1 == e0 && d1 == d0
            &&& if i <= m0.rooms@.len() {
                &&& m1.rooms@ == m0.rooms@.insert(i, room)
                &&& m1.names@.len() == m0.names@.len() + 1
                &&& m1.names@.remove(i) == m0.names@
                &&& if needs_name(m0.names@, name@) { picked_name(m0.names@, m1.names@[i]@) } else { m1.names@[i] == name }
                &&& r == Ok::<MapAction<S>, String>(MapAction::DeleteRoom { idx: i as usize })
            } else {
                &&& m1.names@ == m0.names@ && m1.rooms@ == m0.rooms@
                &&& r matches Err(e) && e@ == "Out of range"@
            }
        },
        MapAction::DeleteRoom { idx } => {
            &&& m1.styles.fg@ == m0.styles.fg@ && m1.styles.bg@ == m0.styles.bg@
            &&& e1 == e0 && d1 == d0
            &&& if idx < m0.rooms@.len() {
                &&& m1.rooms@ == m0.rooms@.remove(idx as int)
                &&& m1.names@ == m0.names@.remove(idx as int)
                &&& r == Ok::<MapAction<S>, String>(MapAction::AddRoom {
                    idx: Some(idx), name: m0.names@[idx as int], room: m0.rooms@[idx as int] })
            } else {
                &&& m1.names@ == m0.names@ && m1.rooms@ == m0.rooms@
                &&& r matches Err(e) && e@ == "Out of range"@
            }
        },
        MapAction::RoomAction { idx, event } => {
            &&& m1.styles.fg@ == m0.styles.fg@ && m1.styles.bg@ == m0.styles.bg@
            &&& m1.names@ == m0.names@
            &&& if idx < m0.rooms@.len() {
                let r1 = m1.rooms@[idx as int];
                &&& m1.rooms@ == m0.rooms@.update(idx as int, r1)
                &&& match r {
                    Ok(MapAction::RoomAction { idx: j, event: inv }) =>
                        j == idx && room_applied(m0.rooms@[idx as int], event, e0, d0, r1, Ok(inv)),
                    Err(e) => room_applied(m0.rooms@[idx as int], event, e0, d0, r1, Err(e)),
                    _ => false,
                }
                &&& e1 == (if event matches RoomAction::EntityAdd { genid: true, .. } { next_entity_id(e0) } else { e0 })
                &&& d1 == (if event matches RoomAction::DecalAdd { genid: true, .. } {
                    if d0 == u32::MAX { 0 } else { (d0 + 1) as u32 }
                } else { d0 })
            } else {
                &&& m1.rooms@ == m0.rooms@
                &&& e1 == e0 && d1 == d0
                &&& r matches Err(e) && e@ == "Out of range"@
            }
        },
    }
}

/// Whether undoing `a` on `m` gives back exactly `m`: a room edit that its
/// room can undo exactly, and the deletion of a room whose name is not empty
/// and no other room's, so that adding it back keeps its name.
pub open spec fn map_undo_exact<S>(m: MapModel<S>, a: MapAction<S>) -> bool {
    match a {
        MapAction::RoomAction { idx, event } => idx < m.rooms@.len()
            ==> lists_fit(m.rooms@[idx as int]) && undo_exact(m.rooms@[idx as int], event),
        MapAction::DeleteRoom { idx } => idx < m.names@.len() ==> {
            &&& m.names@[idx as int]@.len() > 0
            &&& forall|j: int| 0 <= j < m.names@.len() && j != idx ==> (#[trigger] m.names@[j])@ != m.names@[idx as int]@
        },
        _ => true,
    }
}

/// Whether two maps hold the same stylegrounds, names and rooms.
pub open spec fn map_same<S>(a: MapModel<S>, b: MapModel<S>) -> bool {
    &&& a.styles.fg@ == b.styles.fg@ && a.styles.bg@ == b.styles.bg@
    &&& a.names@ == b.names@
    &&& a.rooms@.len() == b.rooms@.len()
    &&& forall|i: int| 0 <= i < a.rooms@.len() ==> room_same(#[trigger] a.rooms@[i], b.rooms@[i])
}

proof fn lemma_add_room_undo<S>(
    m0: MapModel<S>, a: MapAction<S>, e0: i32, d0: u32, m1: MapModel<S>, e1: i32, d1: u32, inv: MapAction<S>,
    e2: i32, d2: u32, m2: MapModel<S>, e3: i32, d3: u32, res: Result<MapAction<S>, String>,
)
    requires
        a is AddRoom,
        m0.rooms@.len() < usize::MAX,
        map_applied(m0, a, e0, d0, m1, e1, d1, Ok(inv)),
        map_applied(m1, inv, e2, d2, m2, e3, d3, res),
    ensures
        res is Ok,
        map_same(m0, m2),
{
    let i: int = match a->AddRoom_idx { Some(i) => i as int, None => m0.rooms@.len() as int };
    assert(m1.rooms@.remove(i) =~= m0.rooms@);
}

proof fn lemma_delete_room_undo<S>(
    m0: MapModel<S>, a: MapAction<S>, e0: i32, d0: u32, m1: MapModel<S>, e1: i32, d1: u32, inv: MapAction<S>,
    e2: i32, d2: u32, m2: MapModel<S>, e3: i32, d3: u32, res: Result<MapAction<S>, String>,
)
    requires
        a is DeleteRoom,
        m0.wf(),
        map_undo_exact(m0, a),
        map_applied(m0, a, e0, d0, m1, e1, d1, Ok(inv)),
        map_applied(m1, inv, e2, d2, m2, e3, d3, res),
    ensures
        res is Ok,
        map_same(m0, m2),
{
    let i = a->DeleteRoom_idx as int;
    let n = m0.names@[i];
    assert(m2.rooms@ =~= m0.rooms@);
    assert(!taken(m1.names@, n@)) by {
        if taken(m1.names@, n@) {
            let j = choose|j: int| 0 <= j < m1.names@.len() && #[trigger] m1.names@[j]@ == n@;
            if j < i {
                assert(m0.names@[j] == m1.names@[j]);
            } else {
                assert(m0.names@[j + 1] == m1.names@[j]);
            }
        }
    }
    assert forall|j: int| 0 <= j < m0.names@.len() implies #[trigger] m2.names@[j] == m0.names@[j] by {
        if j < i {
            assert(m2.names@.remove(i)[j] == m1.names@[j]);
        } else if j > i {
            assert(m2.names@.remove(i)[j - 1] == m1.names@[j - 1]);
        }
    }
    assert(m2.names@ =~= m0.names@);
}

proof fn lemma_room_edit_undo<S>(
    m0: MapModel<S>, a: MapAction<S>, e0: i32, d0: u32, m1: MapModel<S>, e1: i32, d1: u32, inv: MapAction<S>,
    e2: i32, d2: u32, m2: MapModel<S>, e3: i32, d3: u32, res: Result<MapAction<S>, String>,
)
    requires
        a is RoomAction,
        map_action_fits(m0, a),
        map_undo_exact(m0, a),
        map_applied(m0, a, e0, d0, m1, e1, d1, Ok(inv)),
        map_applied(m1, inv, e2, d2, m2, e3, d3, res),
    ensures
        res is Ok,
        map_same(m0, m2),
{
    let i = a->RoomAction_idx as int;
    let r1 = m1.rooms@[i];
    let r2 = m2.rooms@[i];
    law_room_action_undo(m0.rooms@[i], a->RoomAction_event, e0, d0, r1, inv->RoomAction_event, e2, d2, r2,
        match res { Ok(x) => Ok(x->RoomAction_event), Err(e) => Err(e) });
    assert forall|j: int| 0 <= j < m0.rooms@.len() implies room_same(#[trigger] m0.rooms@[j], m2.rooms@[j]) by {
        if j != i {
            assert(m2.rooms@[j] == m0.rooms@[j]);
        }
    }
}

/// Undoing restores the map: where an edit that `map_undo_exact` admits
/// succeeds, the edit it gives back succeeds on the result and gives back
/// the map as it was.
pub proof fn law_map_action_undo<S>(
    m0: MapModel<S>, a: MapAction<S>, e0: i32, d0: u32, m1: MapModel<S>, e1: i32, d1: u32, inv: MapAction<S>,
    e2: i32, d2: u32, m2: MapModel<S>, e3: i32, d3: u32, res: Result<MapAction<S>, String>,
)
    requires
        m0.wf(),
        m0.rooms@.len() < usize::MAX,
        map_action_fits(m0, a),
        map_undo_exact(m0, a),
        map_applied(m0, a, e0, d0, m1, e1, d1, Ok(inv)),
        map_applied(m1, inv, e2, d2, m2, e3, d3, res),
    ensures
        res is Ok,
        map_same(m0, m2),
{
    match a {
        MapAction::Styleground(sa) => {
            law_styleground_undo(m0.styles.fg@, m0.styles.bg@, sa);
        },
        MapAction::AddRoom { .. } => {
            lemma_add_room_undo(m0, a, e0, d0, m1, e1, d1, inv, e2, d2, m2, e3, d3, res);
        },
        MapAction::DeleteRoom { .. } => {
            lemma_delete_room_undo(m0, a, e0, d0, m1, e1, d1, inv, e2, d2, m2, e3, d3, res);
        },
        MapAction::RoomAction { .. } => {
            lemma_room_edit_undo(m0, a, e0, d0, m1, e1, d1, inv, e2, d2, m2, e3, d3, res);
        },
    }
}

fn out_of_range() -> (r: String)
    ensures
        r@ == "Out of range"@,
{
    proof {
        reveal_strlit("Out of range");
    }
    String::from_str("Out of range")
}

fn name_in_use(names: &Vec<String>, name: &String) -> (r: bool)
    ensures
        r == taken(names@, name@),
{
    let mut i: usize = 0;
    while i < names.len()
        invariant
            i <= names@.len(),
            forall|j: int| 0 <= j < i ==> names@[j]@ != name@,
        decreases names@.len() - i,
    {
        if names[i] == *name {
            assert(names@[i as int]@ == name@);
            return true;
        }
        i = i + 1;
    }
    false
}

/// Applies an edit to a map and gives back the edit that undoes it: a
/// styleground edit as the stylegrounds do; adding a room puts it at its
/// position (the end when none is given) under a new name where its own is
/// empty or taken, and gives back its deletion; deleting a room gives back
/// its addition at the same position; a room edit is applied to its room.
/// A position out of range is refused with `"Out of range"` and changes
/// nothing. `next_entity` is the id the next generated entity gets, and
/// moves on when one is generated; a generated decal takes the next id of
/// `decal_ids`.
pub fn apply_map_action<S>(map: &mut MapModel<S>, a: MapAction<S>, next_entity: &mut i32, decal_ids: &mut IdCounter)
    -> (r: Result<MapAction<S>, String>)
    requires
        old(map).wf(),
        map_action_fits(*old(map), a),
    ensures
        final(map).wf(),
        map_applied(*old(map), a, *old(next_entity), old(decal_ids)@, *final(map), *final(next_entity), final(decal_ids)@, r),
{
    match a {
        MapAction::Styleground(sa) => {
            match map.styles.apply(sa) {
                Ok(inv) => Ok(MapAction::Styleground(inv)),
                Err(e) => Err(e),
            }
        },
        MapAction::AddRoom { idx, name, room } => {
            let i = match idx {
                Some(i) => i,
                None => map.rooms.len(),
            };
            let needs = name.as_str().is_empty() || name_in_use(&map.names, &name);
            let name = if needs { pick_new_name(&map.names) } else { name };
            if i <= map.rooms.len() {
                map.rooms.insert(i, room);
                let ghost before = map.names@;
                map.names.insert(i, name);
                proof {
                    assert(map.names@.remove(i as int) =~= before);
                }
                Ok(MapAction::DeleteRoom { idx: i })
            } else {
                Err(out_of_range())
            }
        },
        MapAction::DeleteRoom { idx } => {
            if idx < map.rooms.len() {
                let room = map.rooms.remove(idx);
                let name = map.names.remove(idx);
                Ok(MapAction::AddRoom { idx: Some(idx), name, room })
            } else {
                Err(out_of_range())
            }
        },
        MapAction::RoomAction { idx, event } => {
            if idx < map.rooms.len() {
                let generates = match &event {
                    RoomAction::EntityAdd { genid, .. } => *genid,
                    _ => false,
                };
                let fresh = *next_entity;
                let ghost r0 = map.rooms@[idx as int];
                let mut room = map.rooms.remove(idx);
                let res = apply_room_action(&mut room, event, fresh, decal_ids);
                let ghost r1 = room;
                map.rooms.insert(idx, room);
                proof {
                    assert(map.rooms@ =~= old(map).rooms@.update(idx as int, r1));
                }
                if generates {
                    *next_entity = if fresh == i32::MAX { i32::MIN } else { fresh + 1 };
                }
                match res {
                    Ok(inv) => Ok(MapAction::RoomAction { idx, event: inv }),
                    Err(e) => Err(e),
                }
            } else {
                Err(out_of_range())
            }
        },
    }
}


/// Whether `trace` holds the map (with the next entity and decal ids)
/// before each of the first `n` edits of a batch and after the last, each
/// edit succeeding with the undo in `invs`.
pub open spec fn trace_ok<S>(evs: Seq<MapAction<S>>, trace: Seq<(MapModel<S>, i32, u32)>, invs: Seq<MapAction<S>>, n: nat) -> bool {
    &&& n <= evs.len() && trace.len() == n + 1 && invs.len() == n
    &&& forall|i: int| 0 <= i < n ==> #[trigger] map_applied(trace[i].0, evs[i], trace[i].1, trace[i].2,
        trace[i + 1].0, trace[i + 1].1, trace[i + 1].2, Ok(invs[i]))
}

/// What applying a batch of edits does: each in order; where one is
/// refused, the batch stops there with its message, the edits before it
/// staying applied.
pub open spec fn batch_applied<S>(
    m0: MapModel<S>, evs: Seq<MapAction<S>>, e0: i32, d0: u32,
    m1: MapModel<S>, e1: i32, d1: u32, r: Result<Seq<MapAction<S>>, String>,
) -> bool {
    match r {
        Ok(invs) => batch_done(m0, evs, e0, d0, m1, e1, d1, invs),
        Err(e) => batch_stopped(m0, evs, e0, d0, m1, e1, d1, e),
    }
}

/// Whether every edit of the batch succeeded, taking `m0` to `m1`.
pub open spec fn batch_done<S>(
    m0: MapModel<S>, evs: Seq<MapAction<S>>, e0: i32, d0: u32,
    m1: MapModel<S>, e1: i32, d1: u32, invs: Seq<MapAction<S>>,
) -> bool {
    exists|trace: Seq<(MapModel<S>, i32, u32)>| #[trigger] trace_ok(evs, trace, invs, evs.len())
        && trace[0] == (m0, e0, d0) && trace.last() == (m1, e1, d1)
}

/// Whether the batch stopped at a refused edit with message `e`, the edits
/// before it having taken `m0` on to where that edit left `m1`.
pub open spec fn batch_stopped<S>(
    m0: MapModel<S>, evs: Seq<MapAction<S>>, e0: i32, d0: u32,
    m1: MapModel<S>, e1: i32, d1: u32, e: String,
) -> bool {
    exists|trace: Seq<(MapModel<S>, i32, u32)>, invs: Seq<MapAction<S>>, k: nat|
        #[trigger] trace_ok(evs, trace, invs, k) && k < evs.len() && trace[0] == (m0, e0, d0)
        && map_applied(trace.last().0, evs[k as int], trace.last().1, trace.last().2, m1, e1, d1, Err(e))
}

/// Whether the edits of a batch from the `k`-th on fit the map each meets
/// when those before it succeeded.
pub open spec fn batch_fits<S>(m: MapModel<S>, evs: Seq<MapAction<S>>, k: int, e: i32, d: u32) -> bool
    decreases evs.len() - k,
{
    if k < 0 || k >= evs.len() {
        true
    } else {
        &&& map_action_fits(m, evs[k])
        &&& forall|m1: MapModel<S>, e1: i32, d1: u32, inv: MapAction<S>|
            #[trigger] map_applied(m, evs[k], e, d, m1, e1, d1, Ok(inv)) ==> batch_fits(m1, evs, k + 1, e1, d1)
    }
}

/// Applies a batch of edits in order and gives back the edits that undo
/// them; the first one refused stops the batch with its message.
pub fn apply_map_batch<S>(map: &mut MapModel<S>, events: Vec<MapAction<S>>, next_entity: &mut i32, decal_ids: &mut IdCounter)
    -> (r: Result<Vec<MapAction<S>>, String>)
    requires
        old(map).wf(),
        batch_fits(*old(map), events@, 0, *old(next_entity), old(decal_ids)@),
    ensures
        final(map).wf(),
        batch_applied(*old(map), events@, *old(next_entity), old(decal_ids)@, *final(map), *final(next_entity),
            final(decal_ids)@, match r { Ok(v) => Ok(v@), Err(e) => Err(e) }),
{
    let ghost m0 = *map;
    let ghost evs = events@;
    let ghost e0 = *next_entity;
    let ghost d0 = decal_ids@;
    let ghost mut trace: Seq<(MapModel<S>, i32, u32)> = seq![(m0, e0, d0)];
    let total = events.len();
    let mut rest = events;
    let mut invs: Vec<MapAction<S>> = Vec::new();
    let mut k: usize = 0;
    while rest.len() > 0
        invariant
            map.wf(),
            m0 == *old(map),
            e0 == *old(next_entity),
            d0 == old(decal_ids)@,
            evs == events@,
            total == evs.len(),
            k <= total,
            k + rest@.len() == total,
            rest@ == evs.subrange(k as int, evs.len() as int),
            trace_ok(evs, trace, invs@, k as nat),
            trace[0] == (m0, e0, d0),
            trace.last() == (*map, *next_entity, decal_ids@),
            batch_fits(*map, evs, k as int, *next_entity, decal_ids@),
        decreases rest@.len(),
    {
        let a = rest.remove(0);
        assert(a == evs[k as int]);
        let ghost before = invs@;
        let res = apply_map_action(map, a, next_entity, decal_ids);
        match res {
            Ok(inv) => {
                invs.push(inv);
                proof {
                    let t2 = trace.push((*map, *next_entity, decal_ids@));
                    assert forall|i: int| 0 <= i < k + 1 implies #[trigger] map_applied(t2[i].0, evs[i], t2[i].1, t2[i].2,
                        t2[i + 1].0, t2[i + 1].1, t2[i + 1].2, Ok(invs@[i])) by {
                        if i < k {
                            assert(t2[i] == trace[i] && t2[i + 1] == trace[i + 1] && invs@[i] == before[i]);
                        }
                    }
                    trace = t2;
                    assert(rest@ =~= evs.subrange(k + 1, evs.len() as int));
                }
                k = k + 1;
            },
            Err(e) => {
                proof {
                    assert(trace_ok(evs, trace, before, k as nat));
                    assert(batch_applied(m0, evs, e0, d0, *map, *next_entity, decal_ids@, Err(e)));
                }
                return Err(e);
            },
        }
    }
    proof {
        assert(trace_ok(evs, trace, invs@, evs.len()));
        assert(batch_done(m0, evs, e0, d0, *map, *next_entity, decal_ids@, invs@));
    }
    Ok(invs)
}

/// A loaded map with its edit history and whether it has unsaved edits.
pub struct MapState<S> {
    pub map: MapModel<S>,
    pub history: MapHistory<Vec<MapAction<S>>>,
    pub dirty: bool,
}

/// What can happen to a loaded map's contents: a batch of edits made in a
/// phase, an undo or a redo.
pub enum MapEvent<S> {
    Action { events: Vec<MapAction<S>>, merge_phase: u32 },
    Undo,
    Redo,
}

/// Whether the history is as it was.
pub open spec fn same_history<S>(a: MapHistory<Vec<MapAction<S>>>, b: MapHistory<Vec<MapAction<S>>>) -> bool {
    a.undo@ == b.undo@ && a.redo@ == b.redo@ && a.phase == b.phase
}

/// Whether `v` holds the edits `s`.
pub open spec fn holds<S>(v: Vec<MapAction<S>>, s: Seq<MapAction<S>>) -> bool {
    v@ == s
}

/// Whether the batch an event applies fits the map.
pub open spec fn event_fits<S>(st: MapState<S>, ev: MapEvent<S>, e: i32, d: u32) -> bool {
    match ev {
        MapEvent::Action { events, .. } => batch_fits(st.map, events@, 0, e, d),
        MapEvent::Undo => st.history.undo@.len() > 0 ==> batch_fits(st.map, st.history.undo@.last()@, 0, e, d),
        MapEvent::Redo => st.history.redo@.len() > 0 ==> batch_fits(st.map, st.history.redo@.last()@, 0, e, d),
    }
}

/// What an event does to a loaded map: a batch of edits is applied and,
/// where it succeeds, the map is marked dirty and its undo recorded as
/// `MapHistory::record` does (merged by `merge` into the newest entry of
/// the same phase); an undo applies the newest undo entry, which leaves
/// the undo list, and files what it gives back for redoing; a redo does the
/// same the other way. Where an applied batch is refused, its message comes
/// back and the history and flag stay (but for the taken entry).
pub open spec fn map_event_applied<S, F: Fn(Vec<MapAction<S>>, Vec<MapAction<S>>) -> Vec<MapAction<S>>>(
    st0: MapState<S>, ev: MapEvent<S>, e0: i32, d0: u32, merge: F,
    st1: MapState<S>, e1: i32, d1: u32, r: Result<(), String>,
) -> bool {
    let h0 = st0.history;
    let h1 = st1.history;
    match ev {
        MapEvent::Action { events, merge_phase } => exists|res: Result<Seq<MapAction<S>>, String>|
            #[trigger] batch_applied(st0.map, events@, e0, d0, st1.map, e1, d1, res)
            && match res {
                Ok(invs) => {
                    let t = trimmed(h0.undo@);
                    &&& st1.dirty
                    &&& if t.len() == 0 || h0.phase != merge_phase {
                        &&& h1.undo@.len() == t.len() + 1
                        &&& h1.undo@.drop_last() == t
                        &&& h1.undo@.last()@ == invs
                    } else {
                        &&& h1.undo@.len() == t.len()
                        &&& h1.undo@.drop_last() == t.drop_last()
                        &&& exists|undo: Vec<MapAction<S>>| #[trigger] holds(undo, invs)
                            && call_ensures(merge, (t.last(), undo), h1.undo@.last())
                    }
                    &&& h1.redo@.len() == 0
                    &&& h1.phase == merge_phase
                    &&& r == Ok::<(), String>(())
                },
                Err(e) => same_history(h0, h1) && st1.dirty == st0.dirty && r == Err::<(), String>(e),
            },
        MapEvent::Undo => if h0.undo@.len() == 0 {
            &&& same_map(st0.map, st1.map) && same_history(h0, h1) && st1.dirty == st0.dirty
            &&& e1 == e0 && d1 == d0 && r == Ok::<(), String>(())
        } else {
            exists|res: Result<Seq<MapAction<S>>, String>|
                #[trigger] batch_applied(st0.map, h0.undo@.last()@, e0, d0, st1.map, e1, d1, res)
                && h1.undo@ == h0.undo@.drop_last()
                && match res {
                    Ok(invs) => st1.dirty && h1.redo@.len() == h0.redo@.len() + 1 && h1.redo@.drop_last() == h0.redo@
                        && h1.redo@.last()@ == invs && h1.phase == 0 && r == Ok::<(), String>(()),
                    Err(e) => h1.redo@ == h0.redo@ && h1.phase == h0.phase && st1.dirty == st0.dirty
                        && r == Err::<(), String>(e),
                }
        },
        MapEvent::Redo => if h0.redo@.len() == 0 {
            &&& same_map(st0.map, st1.map) && same_history(h0, h1) && st1.dirty == st0.dirty
            &&& e1 == e0 && d1 == d0 && r == Ok::<(), String>(())
        } else {
            exists|res: Result<Seq<MapAction<S>>, String>|
                #[trigger] batch_applied(st0.map, h0.redo@.last()@, e0, d0, st1.map, e1, d1, res)
                && h1.redo@ == h0.redo@.drop_last()
                && match res {
                    Ok(invs) => st1.dirty && h1.undo@.len() == h0.undo@.len() + 1 && h1.undo@.drop_last() == h0.undo@
                        && h1.undo@.last()@ == invs && h1.phase == 0 && r == Ok::<(), String>(()),
                    Err(e) => h1.undo@ == h0.undo@ && h1.phase == h0.phase && st1.dirty == st0.dirty
                        && r == Err::<(), String>(e),
                }
        },
    }
}

/// Handles an edit, undo or redo of a loaded map.
pub fn map_event_step<S, F: Fn(Vec<MapAction<S>>, Vec<MapAction<S>>) -> Vec<MapAction<S>>>(
    st: &mut MapState<S>,
    ev: MapEvent<S>,
    next_entity: &mut i32,
    decal_ids: &mut IdCounter,
    merge: F,
) -> (r: Result<(), String>)
    requires
        old(st).map.wf(),
        forall|a: Vec<MapAction<S>>, b: Vec<MapAction<S>>| call_requires(merge, (a, b)),
        event_fits(*old(st), ev, *old(next_entity), old(decal_ids)@),
    ensures
        final(st).map.wf(),
        map_event_applied(*old(st), ev, *old(next_entity), old(decal_ids)@, merge, *final(st), *final(next_entity),
            final(decal_ids)@, r),
{
    match ev {
        MapEvent::Action { events, merge_phase } => {
            let ghost evs = events@;
            let res = apply_map_batch(&mut st.map, events, next_entity, decal_ids);
            match res {
                Ok(undo) => {
                    let ghost u = undo;
                    st.dirty = true;
                    st.history.record(undo, merge_phase, merge);
                    proof {
                        assert(holds(u, u@));
                        let t = trimmed(old(st).history.undo@);
                        if t.len() == 0 || old(st).history.phase != merge_phase {
                            assert(st.history.undo@.drop_last() =~= t);
                        }
                        assert(batch_applied(old(st).map, evs, *old(next_entity), old(decal_ids)@, st.map, *next_entity,
                            decal_ids@, Ok(u@)));
                    }
                    Ok(())
                },
                Err(e) => {
                    proof {
                        assert(batch_applied(old(st).map, evs, *old(next_entity), old(decal_ids)@, st.map, *next_entity,
                            decal_ids@, Err(e)));
                    }
                    Err(e)
                },
            }
        },
        MapEvent::Undo => {
            match st.history.take_undo() {
                Some(entry) => {
                    let ghost ev_seq = entry@;
                    let res = apply_map_batch(&mut st.map, entry, next_entity, decal_ids);
                    match res {
                        Ok(opp) => {
                            let ghost o = opp;
                            st.dirty = true;
                            st.history.push_redo(opp);
                            proof {
                                assert(st.history.redo@.drop_last() =~= old(st).history.redo@);
                                assert(batch_applied(old(st).map, ev_seq, *old(next_entity), old(decal_ids)@, st.map,
                                    *next_entity, decal_ids@, Ok(o@)));
                            }
                            Ok(())
                        },
                        Err(e) => {
                            proof {
                                assert(batch_applied(old(st).map, ev_seq, *old(next_entity), old(decal_ids)@, st.map,
                                    *next_entity, decal_ids@, Err(e)));
                            }
                            Err(e)
                        },
                    }
                },
                None => Ok(()),
            }
        },
        MapEvent::Redo => {
            match st.history.take_redo() {
                Some(entry) => {
                    let ghost ev_seq = entry@;
                    let res = apply_map_batch(&mut st.map, entry, next_entity, decal_ids);
                    match res {
                        Ok(opp) => {
                            let ghost o = opp;
                            st.dirty = true;
                            st.history.push_undo(opp);
                            proof {
                                assert(st.history.undo@.drop_last() =~= old(st).history.undo@);
                                assert(batch_applied(old(st).map, ev_seq, *old(next_entity), old(decal_ids)@, st.map,
                                    *next_entity, decal_ids@, Ok(o@)));
                            }
                            Ok(())
                        },
                        Err(e) => {
                            proof {
                                assert(batch_applied(old(st).map, ev_seq, *old(next_entity), old(decal_ids)@, st.map,
                                    *next_entity, decal_ids@, Err(e)));
                            }
                            Err(e)
                        },
                    }
                },
                None => Ok(()),
            }
        },
    }
}
} // verus!
