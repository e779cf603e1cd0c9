//! Moving the selection: selected entities, triggers, nodes and decals go
//! by a step from where each started, the start of a drag where one is
//! under way, else where each stands.
use vstd::prelude::*;
use crate::resize::sel_entity;
use crate::room::{Room, MapDecal, decals, ents, first_decal, first_entity, find_in_room, find_decal_in_room};
use crate::selection::AppSelection;
use crate::units::{RoomPoint, RoomVector, fits_i32};

verus! {

/// A move the nudge asks for: an entity or trigger (`true`) given a new
/// position and nodes, or a decal (`true` in the foreground) a new position.
#[derive(Debug)]
pub enum NudgeEdit {
    Entity { id: i32, trigger: bool, x: i32, y: i32, nodes: Vec<(i32, i32)> },
    Decal { id: u32, fg: bool, x: i32, y: i32 },
}

/// The last of the first `n` selected items equal to `x`, if any.
pub open spec fn last_index(sel: Seq<AppSelection>, x: AppSelection, n: nat) -> Option<int>
    decreases n,
{
    if n == 0 {
        None
    } else if sel[n - 1] == x {
        Some(n - 1)
    } else {
        last_index(sel, x, (n - 1) as nat)
    }
}

/// Where the `k`-th selected item moves from: the start given for it, or
/// else `cur`, where it stands.
pub open spec fn start_at(starts: Seq<Option<RoomPoint>>, k: int, cur: (int, int)) -> (int, int) {
    match starts[k] {
        Some(p) => (p.x as int, p.y as int),
        None => cur,
    }
}

/// The entity or trigger a selected body or node belongs to.
pub open spec fn owner_of(s: AppSelection) -> Option<(i32, bool)> {
    match s {
        AppSelection::EntityBody(id, t) => Some((id, t)),
        AppSelection::EntityNode(id, _, t) => Some((id, t)),
        _ => None,
    }
}

/// The entities (or, with `trigger`, triggers) that a body or node among
/// the first `n` selected items belongs to, each once, in order of first
/// appearance.
pub open spec fn moved_owners(sel: Seq<AppSelection>, trigger: bool, n: nat) -> Seq<i32>
    decreases n,
{
    if n == 0 {
        Seq::empty()
    } else {
        let before = moved_owners(sel, trigger, (n - 1) as nat);
        match owner_of(sel[n - 1]) {
            Some((id, t)) => if t == trigger && !before.contains(id) { before.push(id) } else { before },
            None => before,
        }
    }
}

/// The selected decals among the first `n` items that the room holds, by
/// their place in the selection.
pub open spec fn moved_decals(room: Room, sel: Seq<AppSelection>, n: nat) -> Seq<int>
    decreases n,
{
    if n == 0 {
        Seq::empty()
    } else {
        let before = moved_decals(room, sel, (n - 1) as nat);
        match sel[n - 1] {
            AppSelection::Decal(id, fg) => if first_decal(decals(room, fg), id) is Some { before.push(n - 1) } else { before },
            _ => before,
        }
    }
}

/// The decal a selection names.
pub open spec fn sel_decal(room: Room, id: u32, fg: bool) -> MapDecal {
    decals(room, fg)[first_decal(decals(room, fg), id)->0]
}

/// Where the entity (`trigger`) `id` goes, after the first `n` selected
/// items: by `d` from its body's start where its body is selected.
pub open spec fn moved_x(room: Room, sel: Seq<AppSelection>, starts: Seq<Option<RoomPoint>>, d: RoomVector, id: i32, trigger: bool, n: nat) -> (int, int) {
    let e = sel_entity(room, id, trigger);
    match last_index(sel, AppSelection::EntityBody(id, trigger), n) {
        Some(k) => {
            let s = start_at(starts, k, (e.x as int, e.y as int));
            (s.0 + d.x, s.1 + d.y)
        },
        None => (e.x as int, e.y as int),
    }
}

/// Where node `j` of the entity (`trigger`) `id` goes, after the first `n`
/// selected items: by `d` from the node's start where it is selected.
pub open spec fn moved_node(room: Room, sel: Seq<AppSelection>, starts: Seq<Option<RoomPoint>>, d: RoomVector, id: i32, trigger: bool, j: int, n: nat) -> (i32, i32) {
    let node = sel_entity(room, id, trigger).nodes@[j];
    match last_index(sel, AppSelection::EntityNode(id, j as usize, trigger), n) {
        Some(k) => {
            let s = start_at(starts, k, (node.0 as int, node.1 as int));
            ((s.0 + d.x) as i32, (s.1 + d.y) as i32)
        },
        None => node,
    }
}

/// Whether `e` moves the entity (`trigger`) `id` as the selection asks.
pub open spec fn moves_entity(room: Room, sel: Seq<AppSelection>, starts: Seq<Option<RoomPoint>>, d: RoomVector, id: i32, trigger: bool, e: NudgeEdit) -> bool {
    let nodes = sel_entity(room, id, trigger).nodes@;
    e matches NudgeEdit::Entity { id: i, trigger: t, x, y, nodes: ns } && {
        &&& i == id && t == trigger
        &&& (x as int, y as int) == moved_x(room, sel, starts, d, id, trigger, sel.len())
        &&& ns@.len() == nodes.len()
        &&& forall|j: int| 0 <= j < nodes.len() ==> #[trigger] ns@[j] == moved_node(room, sel, starts, d, id, trigger, j, sel.len())
    }
}

/// Whether `e` moves the decal selected at `k` as the selection asks.
pub open spec fn moves_decal(room: Room, sel: Seq<AppSelection>, starts: Seq<Option<RoomPoint>>, d: RoomVector, k: int, e: NudgeEdit) -> bool {
    sel[k] matches AppSelection::Decal(id, fg) && {
        let dc = sel_decal(room, id, fg);
        let s = start_at(starts, k, (dc.x as int, dc.y as int));
        e matches NudgeEdit::Decal { id: i, fg: f, x, y } && i == id && f == fg && x == s.0 + d.x && y == s.1 + d.y
    }
}

/// Whether every selected item can be moved: each selected body and node
/// names an entity the room holds, each node one it has, and every new
/// position fits in `i32`.
pub open spec fn nudge_fits(room: Room, sel: Seq<AppSelection>, starts: Seq<Option<RoomPoint>>, d: RoomVector) -> bool {
    &&& starts.len() == sel.len()
    &&& forall|k: int| 0 <= k < sel.len() ==> match #[trigger] sel[k] {
        AppSelection::EntityBody(id, t) => first_entity(ents(room, t), id) is Some && {
            let e = sel_entity(room, id, t);
            let s = start_at(starts, k, (e.x as int, e.y as int));
            fits_i32(s.0 + d.x) && fits_i32(s.1 + d.y)
        },
        AppSelection::EntityNode(id, j, t) => first_entity(ents(room, t), id) is Some && {
            let e = sel_entity(room, id, t);
            &&& j < e.nodes@.len()
            &&& {
                let s = start_at(starts, k, (e.nodes@[j as int].0 as int, e.nodes@[j as int].1 as int));
                fits_i32(s.0 + d.x) && fits_i32(s.1 + d.y)
            }
        },
        AppSelection::Decal(id, fg) => first_decal(decals(room, fg), id) is Some ==> {
            let dc = sel_decal(room, id, fg);
            let s = start_at(starts, k, (dc.x as int, dc.y as int));
            fits_i32(s.0 + d.x) && fits_i32(s.1 + d.y)
        },
        _ => true,
    }
}

/// Whether `out` is what nudging the selection asks for: the selected
/// decals in order, then each moved entity, then each moved trigger.
pub open spec fn nudges(room: Room, sel: Seq<AppSelection>, starts: Seq<Option<RoomPoint>>, d: RoomVector, out: Seq<NudgeEdit>) -> bool {
    let dm = moved_decals(room, sel, sel.len());
    let oe = moved_owners(sel, false, sel.len());
    let ot = moved_owners(sel, true, sel.len());
    &&& out.len() == dm.len() + oe.len() + ot.len()
    &&& forall|j: int| 0 <= j < dm.len() ==> moves_decal(room, sel, starts, d, dm[j], #[trigger] out[j])
    &&& forall|j: int| 0 <= j < oe.len() ==> moves_entity(room, sel, starts, d, oe[j], false, #[trigger] out[dm.len() + j])
    &&& forall|j: int| 0 <= j < ot.len() ==> moves_entity(room, sel, starts, d, ot[j], true, #[trigger] out[dm.len() + oe.len() + j])
}

proof fn lemma_node_untouched(
    room: Room, sel: Seq<AppSelection>, starts: Seq<Option<RoomPoint>>, d: RoomVector, id: i32, trigger: bool, k: int, m: int,
)
    requires
        0 <= k < sel.len(),
        0 <= m,
        sel[k] != AppSelection::EntityNode(id, m as usize, trigger),
    ensures
        moved_node(room, sel, starts, d, id, trigger, m, (k + 1) as nat) == moved_node(room, sel, starts, d, id, trigger, m, k as nat),
{
}

fn start_or(starts: &Vec<Option<RoomPoint>>, k: usize, cx: i32, cy: i32) -> (r: (i32, i32))
    requires
        k < starts@.len(),
    ensures
        (r.0 as int, r.1 as int) == start_at(starts@, k as int, (cx as int, cy as int)),
{
    match starts[k] {
        Some(p) => (p.x, p.y),
        None => (cx, cy),
    }
}

fn holds_id(v: &Vec<i32>, id: i32) -> (r: bool)
    ensures
        r == v@.contains(id),
{
    let mut k: usize = 0;
    while k < v.len()
        invariant
            k <= v@.len(),
            forall|j: int| 0 <= j < k ==> v@[j] != id,
        decreases v@.len() - k,
    {
        if v[k] == id {
            return true;
        }
        k = k + 1;
    }
    false
}

/// The owners moved, each with the place of one of its selected items.
fn owners(sel: &Vec<AppSelection>, trigger: bool) -> (r: (Vec<i32>, Vec<usize>))
    ensures
        r.0@ == moved_owners(sel@, trigger, sel@.len()),
        r.1@.len() == r.0@.len(),
        forall|j: int| 0 <= j < r.1@.len() ==> (#[trigger] r.1@[j]) < sel@.len()
            && owner_of(sel@[r.1@[j] as int]) == Some((r.0@[j], trigger)),
{
    let mut ids: Vec<i32> = Vec::new();
    let mut at: Vec<usize> = Vec::new();
    let mut k: usize = 0;
    while k < sel.len()
        invariant
            k <= sel@.len(),
            ids@ == moved_owners(sel@, trigger, k as nat),
            at@.len() == ids@.len(),
            forall|j: int| 0 <= j < at@.len() ==> (#[trigger] at@[j]) < sel@.len()
                && owner_of(sel@[at@[j] as int]) == Some((ids@[j], trigger)),
        decreases sel@.len() - k,
    {
        let o: Option<(i32, bool)> = match sel[k] {
            AppSelection::EntityBody(id, t) => Some((id, t)),
            AppSelection::EntityNode(id, _, t) => Some((id, t)),
            _ => None,
        };
        match o {
            Some((id, t)) => {
                if t == trigger && !holds_id(&ids, id) {
                    ids.push(id);
                    at.push(k);
                }
            },
            None => {},
        }
        k = k + 1;
    }
    (ids, at)
}

fn entity_move(
    room: &Room,
    sel: &Vec<AppSelection>,
    starts: &Vec<Option<RoomPoint>>,
    d: RoomVector,
    id: i32,
    trigger: bool,
    w: usize,
) -> (e: NudgeEdit)
    requires
        nudge_fits(*room, sel@, starts@, d),
        w < sel@.len(),
        owner_of(sel@[w as int]) == Some((id, trigger)),
    ensures
        moves_entity(*room, sel@, starts@, d, id, trigger, e),
{
    assert(first_entity(ents(*room, trigger), id) is Some) by {
        assert(match sel@[w as int] {
            AppSelection::EntityBody(i, t) => first_entity(ents(*room, t), i) is Some,
            AppSelection::EntityNode(i, _, t) => first_entity(ents(*room, t), i) is Some,
            _ => false,
        });
    }
    let i = match find_in_room(room, trigger, id) {
        Some(i) => i,
        None => {
            return NudgeEdit::Decal { id: 0, fg: false, x: 0, y: 0 };
        },
    };
    let ent = if trigger { &room.triggers[i] } else { &room.entities[i] };
    let ghost e0 = sel_entity(*room, id, trigger);
    assert(*ent == e0);
    let mut x: i32 = ent.x;
    let mut y: i32 = ent.y;
    let mut nodes: Vec<(i32, i32)> = Vec::new();
    let mut j: usize = 0;
    while j < ent.nodes.len()
        invariant
            j <= ent.nodes@.len(),
            nodes@ == ent.nodes@.take(j as int),
        decreases ent.nodes@.len() - j,
    {
        nodes.push(ent.nodes[j]);
        proof {
            assert(ent.nodes@.take(j + 1) =~= ent.nodes@.take(j as int).push(ent.nodes@[j as int]));
        }
        j = j + 1;
    }
    proof {
        assert(ent.nodes@.take(ent.nodes@.len() as int) =~= ent.nodes@);
    }
    let node_count = ent.nodes.len();
    let mut k: usize = 0;
    while k < sel.len()
        invariant
            k <= sel@.len(),
            node_count == e0.nodes@.len(),
            *ent == e0,
            e0 == sel_entity(*room, id, trigger),
            nudge_fits(*room, sel@, starts@, d),
            (x as int, y as int) == moved_x(*room, sel@, starts@, d, id, trigger, k as nat),
            nodes@.len() == e0.nodes@.len(),
            forall|n: int| 0 <= n < e0.nodes@.len() ==> #[trigger] nodes@[n] == moved_node(*room, sel@, starts@, d, id, trigger, n, k as nat),
        decreases sel@.len() - k,
    {
        let ghost before = nodes@;
        let sk = sel[k];
        assert(sk == sel@[k as int]);
        if let AppSelection::EntityBody(i2, t2) = sk {
            if i2 == id && t2 == trigger {
                let s = start_or(starts, k, ent.x, ent.y);
                x = s.0 + d.x;
                y = s.1 + d.y;
            }
        }
        let mut hit = false;
        if let AppSelection::EntityNode(i2, n, t2) = sk {
            if i2 == id && t2 == trigger {
                let node = ent.nodes[n];
                let s = start_or(starts, k, node.0, node.1);
                nodes.set(n, (s.0 + d.x, s.1 + d.y));
                hit = true;
                proof {
                    let key = AppSelection::EntityNode(id, n, trigger);
                    assert(last_index(sel@, key, (k + 1) as nat) == Some(k as int));
                    assert(e0.nodes@[n as int] == node);
                    assert forall|m: int| 0 <= m < e0.nodes@.len() implies #[trigger] nodes@[m]
                        == moved_node(*room, sel@, starts@, d, id, trigger, m, (k + 1) as nat) by {
                        if m != n as int {
                            lemma_node_untouched(*room, sel@, starts@, d, id, trigger, k as int, m);
                            assert(nodes@[m] == before[m]);
                        }
                    }
                }
            }
        }
        proof {
            if !hit {
                assert forall|m: int| 0 <= m < e0.nodes@.len() implies #[trigger] nodes@[m]
                    == moved_node(*room, sel@, starts@, d, id, trigger, m, (k + 1) as nat) by {
                    lemma_node_untouched(*room, sel@, starts@, d, id, trigger, k as int, m);
                    assert(nodes@[m] == before[m]);
                }
            }
        }
        k = k + 1;
    }
    NudgeEdit::Entity { id, trigger, x, y, nodes }
}

fn push_entity_moves(
    out: &mut Vec<NudgeEdit>,
    room: &Room,
    sel: &Vec<AppSelection>,
    starts: &Vec<Option<RoomPoint>>,
    d: RoomVector,
    trigger: bool,
)
    requires
        nudge_fits(*room, sel@, starts@, d),
    ensures
        final(out)@.len() == old(out)@.len() + moved_owners(sel@, trigger, sel@.len()).len(),
        forall|j: int| 0 <= j < old(out)@.len() ==> #[trigger] final(out)@[j] == old(out)@[j],
        forall|j: int| 0 <= j < moved_owners(sel@, trigger, sel@.len()).len() ==> moves_entity(*room, sel@, starts@, d,
            moved_owners(sel@, trigger, sel@.len())[j], trigger, #[trigger] final(out)@[old(out)@.len() + j]),
{
    let (ids, at) = owners(sel, trigger);
    let ghost o0 = out@;
    let mut j: usize = 0;
    while j < ids.len()
        invariant
            j <= ids@.len(),
            at@.len() == ids@.len(),
            ids@ == moved_owners(sel@, trigger, sel@.len()),
            forall|q: int| 0 <= q < at@.len() ==> (#[trigger] at@[q]) < sel@.len()
                && owner_of(sel@[at@[q] as int]) == Some((ids@[q], trigger)),
            nudge_fits(*room, sel@, starts@, d),
            out@.len() == o0.len() + j,
            forall|q: int| 0 <= q < o0.len() ==> #[trigger] out@[q] == o0[q],
            forall|q: int| 0 <= q < j ==> moves_entity(*room, sel@, starts@, d, ids@[q], trigger, #[trigger] out@[o0.len() + q]),
        decreases ids@.len() - j,
    {
        let e = entity_move(room, sel, starts, d, ids[j], trigger, at[j]);
        out.push(e);
        j = j + 1;
    }
}

/// Moves the selected entities, triggers, nodes and decals by `d`, each
/// from its start in `starts` where one is given (the start of a drag),
/// else from where it stands. Gives the moves of the selected decals the
/// room holds, in order, then of each moved entity, then of each moved
/// trigger, each once with its body and selected nodes moved.
pub fn nudge_selection(
    room: &Room,
    sel: &Vec<AppSelection>,
    starts: &Vec<Option<RoomPoint>>,
    d: RoomVector,
) -> (out: Vec<NudgeEdit>)
    requires
        nudge_fits(*room, sel@, starts@, d),
    ensures
        nudges(*room, sel@, starts@, d, out@),
{
    let mut out: Vec<NudgeEdit> = Vec::new();
    let mut k: usize = 0;
    while k < sel.len()
        invariant
            k <= sel@.len(),
            nudge_fits(*room, sel@, starts@, d),
            out@.len() == moved_decals(*room, sel@, k as nat).len(),
            forall|j: int| 0 <= j < out@.len() ==> moves_decal(*room, sel@, starts@, d,
                moved_decals(*room, sel@, k as nat)[j], #[trigger] out@[j]),
        decreases sel@.len() - k,
    {
        let sk = sel[k];
        assert(sk == sel@[k as int]);
        if let AppSelection::Decal(id, fg) = sk {
            match find_decal_in_room(room, fg, id) {
                Some(i) => {
                    let dc = if fg { &room.fg_decals[i] } else { &room.bg_decals[i] };
                    assert(*dc == sel_decal(*room, id, fg));
                    let s = start_or(starts, k, dc.x, dc.y);
                    out.push(NudgeEdit::Decal { id, fg, x: s.0 + d.x, y: s.1 + d.y });
                },
                None => {},
            }
        }
        k = k + 1;
    }
    push_entity_moves(&mut out, room, sel, starts, d, false);
    push_entity_moves(&mut out, room, sel, starts, d, true);
    out
}

/// Where a selected item stands: an entity's or trigger's body, a node, or
/// a decal that the room holds; nothing for the rest.
pub open spec fn stands_at(room: Room, s: AppSelection) -> Option<(i32, i32)> {
    match s {
        AppSelection::EntityBody(id, t) => if first_entity(ents(room, t), id) is Some {
            let e = sel_entity(room, id, t);
            Some((e.x, e.y))
        } else {
            None
        },
        AppSelection::EntityNode(id, j, t) => if first_entity(ents(room, t), id) is Some
            && j < sel_entity(room, id, t).nodes@.len() {
            Some(sel_entity(room, id, t).nodes@[j as int])
        } else {
            None
        },
        AppSelection::Decal(id, fg) => if first_decal(decals(room, fg), id) is Some {
            let dc = sel_decal(room, id, fg);
            Some((dc.x, dc.y))
        } else {
            None
        },
        _ => None,
    }
}

/// Whether `starts` records, item by item, where the selection `sel` stands.
pub open spec fn starts_of(room: Room, sel: Seq<AppSelection>, starts: Seq<Option<RoomPoint>>) -> bool {
    &&& starts.len() == sel.len()
    &&& forall|k: int| 0 <= k < sel.len() ==> match stands_at(room, #[trigger] sel[k]) {
        Some(p) => starts[k] matches Some(q) && q.x == p.0 && q.y == p.1,
        None => starts[k] is None,
    }
}

/// No start given for any of `n` items.
pub open spec fn no_starts(n: nat) -> Seq<Option<RoomPoint>> {
    Seq::new(n, |i: int| None)
}

/// Records where each selected item stands, for a drag to move it from.
pub fn drag_starts(room: &Room, sel: &Vec<AppSelection>) -> (r: Vec<Option<RoomPoint>>)
    ensures
        starts_of(*room, sel@, r@),
{
    let mut r: Vec<Option<RoomPoint>> = Vec::new();
    let mut k: usize = 0;
    while k < sel.len()
        invariant
            k <= sel@.len(),
            r@.len() == k,
            forall|j: int| 0 <= j < k ==> match stands_at(*room, #[trigger] sel@[j]) {
                Some(p) => r@[j] matches Some(q) && q.x == p.0 && q.y == p.1,
                None => r@[j] is None,
            },
        decreases sel@.len() - k,
    {
        let sk = sel[k];
        assert(sk == sel@[k as int]);
        let at: Option<RoomPoint> = match sk {
            AppSelection::EntityBody(id, t) => match find_in_room(room, t, id) {
                Some(i) => {
                    let e = if t { &room.triggers[i] } else { &room.entities[i] };
                    Some(RoomPoint::new(e.x, e.y))
                },
                None => None,
            },
            AppSelection::EntityNode(id, j, t) => match find_in_room(room, t, id) {
                Some(i) => {
                    let e = if t { &room.triggers[i] } else { &room.entities[i] };
                    if j < e.nodes.len() {
                        Some(RoomPoint::new(e.nodes[j].0, e.nodes[j].1))
                    } else {
                        None
                    }
                },
                None => None,
            },
            AppSelection::Decal(id, fg) => match find_decal_in_room(room, fg, id) {
                Some(i) => {
                    let dc = if fg { &room.fg_decals[i] } else { &room.bg_decals[i] };
                    Some(RoomPoint::new(dc.x, dc.y))
                },
                None => None,
            },
            _ => None,
        };
        r.push(at);
        k = k + 1;
    }
    r
}

/// As many absent starts as there are selected items.
pub fn none_starts(n: usize) -> (r: Vec<Option<RoomPoint>>)
    ensures
        r@ == no_starts(n as nat),
{
    let mut r: Vec<Option<RoomPoint>> = Vec::new();
    let mut k: usize = 0;
    while k < n
        invariant
            k <= n,
            r@ == no_starts(k as nat),
        decreases n - k,
    {
        r.push(None);
        proof {
            assert(r@ =~= no_starts((k + 1) as nat));
        }
        k = k + 1;
    }
    proof {
        assert(r@ =~= no_starts(n as nat));
    }
    r
}

} // verus!
